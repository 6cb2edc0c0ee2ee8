//! The machine: a tree with a current directory, and the resolution of a
//! path against it.

use crate::path::{compose_spec, root_spec, texts, Path, PathView};
use crate::tree::{same_text, Directory, File};
use vstd::prelude::*;

verus! {

/// What a path resolves to, as a value.
pub enum EntryView {
    File(File),
    Directory(Directory),
}

/// What a path resolves to: a file or a directory of the tree, borrowed
/// from it.
pub enum DirEntry<'f> {
    File(&'f File),
    Directory(&'f Directory),
}

impl<'f> View for DirEntry<'f> {
    type V = EntryView;

    open spec fn view(&self) -> EntryView {
        match *self {
            DirEntry::File(file) => EntryView::File(*file),
            DirEntry::Directory(dir) => EntryView::Directory(*dir),
        }
    }
}

/// The value of an optional entry.
pub open spec fn entry_view(found: Option<DirEntry>) -> Option<EntryView> {
    match found {
        Some(entry) => Some(entry@),
        None => None,
    }
}

/// The component that steps to the parent directory.
pub open spec fn parent_name() -> Seq<char> {
    ".."@
}

/// The component that stays in the directory.
pub open spec fn self_name() -> Seq<char> {
    "."@
}

/// The directories that a list of borrowed directories holds.
pub open spec fn directories(stack: Seq<&Directory>) -> Seq<Directory> {
    stack.map_values(|d: &Directory| *d)
}

/// Where the components `names` lead from the directory `current`, whose
/// ancestors below the root `ancestors` holds, nearest last.
///
/// The parent name steps back to the nearest ancestor, and stays at the
/// root where there is none. The self name stays. Any other name, where it
/// is the last component and names a file of `current`, ends at that file;
/// otherwise it steps down to the sub-directory of that name, and where
/// there is none the components lead nowhere. Without components left the
/// walk ends at `current`.
pub open spec fn walk(
    root: Directory,
    current: Directory,
    ancestors: Seq<Directory>,
    names: Seq<Seq<char>>,
) -> Option<EntryView>
    decreases names.len(),
{
    if names.len() == 0 {
        Some(EntryView::Directory(current))
    } else {
        let name = names[0];
        let rest = names.drop_first();
        if name == parent_name() {
            if ancestors.len() == 0 {
                walk(root, root, ancestors, rest)
            } else {
                walk(root, ancestors.last(), ancestors.drop_last(), rest)
            }
        } else if name == self_name() {
            walk(root, current, ancestors, rest)
        } else if rest.len() == 0 && current.files_map().contains_key(name) {
            Some(EntryView::File(current.files_map()[name]))
        } else if current.dirs_map().contains_key(name) {
            walk(root, current.dirs_map()[name], ancestors.push(current), rest)
        } else {
            None
        }
    }
}

/// Where `names` lead from the root of the tree.
pub open spec fn walk_from(root: Directory, names: Seq<Seq<char>>) -> Option<EntryView> {
    walk(root, root, Seq::<Directory>::empty(), names)
}

/// A path made of parent names and self names alone never leaves the root:
/// stepping up from the root stays at the root.
pub proof fn lemma_ascent_stays_at_root(root: Directory, names: Seq<Seq<char>>)
    requires
        forall|i: int|
            0 <= i < names.len() ==> #[trigger] names[i] == parent_name() || names[i]
                == self_name(),
    ensures
        walk_from(root, names) == Some(EntryView::Directory(root)),
    decreases names.len(),
{
    if names.len() > 0 {
        assert(names[0] == parent_name() || names[0] == self_name());
        assert forall|i: int| 0 <= i < names.drop_first().len() implies #[trigger] names.drop_first()[i]
            == parent_name() || names.drop_first()[i] == self_name() by {
            assert(names.drop_first()[i] == names[i + 1]);
        }
        lemma_ascent_stays_at_root(root, names.drop_first());
    }
}

/// A name that is neither the parent name nor the self name.
pub open spec fn is_plain(name: Seq<char>) -> bool {
    name != parent_name() && name != self_name()
}

/// A single plain name leads to the root's file of that name where there is
/// one, whether or not a sub-directory shares the name; else to the
/// sub-directory of that name; else nowhere.
pub proof fn lemma_walk_one_name(root: Directory, name: Seq<char>)
    requires
        is_plain(name),
    ensures
        walk_from(root, seq![name]) == if root.files_map().contains_key(name) {
            Some(EntryView::File(root.files_map()[name]))
        } else if root.dirs_map().contains_key(name) {
            Some(EntryView::Directory(root.dirs_map()[name]))
        } else {
            None
        },
{
    let names = seq![name];
    assert(names.drop_first() =~= Seq::<Seq<char>>::empty());
    reveal_with_fuel(walk, 2);
}

/// A plain name that is not the last component leads on through the
/// sub-directory of that name, never through a file, and a missing
/// sub-directory ends the walk whatever follows.
pub proof fn lemma_walk_step_down(
    root: Directory,
    current: Directory,
    ancestors: Seq<Directory>,
    name: Seq<char>,
    rest: Seq<Seq<char>>,
)
    requires
        is_plain(name),
        rest.len() > 0,
    ensures
        walk(root, current, ancestors, seq![name] + rest) == if current.dirs_map().contains_key(
            name,
        ) {
            walk(root, current.dirs_map()[name], ancestors.push(current), rest)
        } else {
            None
        },
{
    let names = seq![name] + rest;
    assert(names.drop_first() =~= rest);
}

/// Stepping down by a plain name and straight up again is staying, where
/// the sub-directory exists.
pub proof fn lemma_walk_down_and_up(
    root: Directory,
    current: Directory,
    ancestors: Seq<Directory>,
    name: Seq<char>,
    rest: Seq<Seq<char>>,
)
    requires
        is_plain(name),
        current.dirs_map().contains_key(name),
    ensures
        walk(root, current, ancestors, seq![name, parent_name()] + rest) == walk(
            root,
            current,
            ancestors,
            rest,
        ),
{
    let names = seq![name, parent_name()] + rest;
    assert(names.drop_first() =~= seq![parent_name()] + rest);
    assert(names.drop_first().drop_first() =~= rest);
    assert(ancestors.push(current).drop_last() =~= ancestors);
    reveal_with_fuel(walk, 3);
}

/// A sub-directory that `create_dir` made or found is reached from its
/// parent by its name, unless a file of the parent shares the name.
pub proof fn lemma_created_dir_reachable(
    before: Directory,
    name: Seq<char>,
    made: bool,
    after: Directory,
)
    requires
        crate::tree::dir_creation(before, name, made, after),
        is_plain(name),
        !after.files_map().contains_key(name),
    ensures
        walk_from(after, seq![name]) == Some(EntryView::Directory(after.dirs_map()[name])),
{
    lemma_walk_one_name(after, name);
}

/// A file that `create_file` made or found is reached from its directory
/// by its name.
pub proof fn lemma_created_file_reachable(
    before: Directory,
    name: Seq<char>,
    made: bool,
    after: Directory,
)
    requires
        crate::tree::file_creation(before, name, made, after),
        is_plain(name),
    ensures
        walk_from(after, seq![name]) == Some(EntryView::File(after.files_map()[name])),
{
    lemma_walk_one_name(after, name);
}

/// The path that an entry records.
pub open spec fn entry_location(entry: EntryView) -> PathView {
    match entry {
        EntryView::File(file) => file.location(),
        EntryView::Directory(dir) => dir.location(),
    }
}

/// The path `from` continued by `names`.
pub open spec fn continued(from: PathView, names: Seq<Seq<char>>) -> PathView {
    PathView { components: from.components + names, is_absolute: from.is_absolute }
}

/// Where the entries record their paths rightly as deep as the walk goes,
/// the entry that plain names lead to records the path that was walked:
/// the starting directory's path continued by the names.
pub proof fn lemma_walk_finds_location(
    root: Directory,
    current: Directory,
    ancestors: Seq<Directory>,
    names: Seq<Seq<char>>,
)
    requires
        forall|i: int| 0 <= i < names.len() ==> is_plain(#[trigger] names[i]),
        current.located(names.len()),
    ensures
        walk(root, current, ancestors, names) matches Some(entry) ==> entry_location(entry)
            == continued(current.location(), names),
    decreases names.len(),
{
    if names.len() == 0 {
        assert(current.location().components + names =~= current.location().components);
    } else {
        let name = names[0];
        let rest = names.drop_first();
        assert(is_plain(name));
        assert(seq![name] + rest =~= names);
        if rest.len() == 0 && current.files_map().contains_key(name) {
            assert(current.location().components.push(name) =~= current.location().components
                + names);
        } else if current.dirs_map().contains_key(name) {
            let child = current.dirs_map()[name];
            assert forall|i: int| 0 <= i < rest.len() implies is_plain(#[trigger] rest[i]) by {
                assert(rest[i] == names[i + 1]);
            }
            lemma_walk_finds_location(root, child, ancestors.push(current), rest);
            assert(current.location().components.push(name) + rest
                =~= current.location().components + names);
        }
    }
}

/// The directory that stepping down from `root` through the names of
/// `location` reaches, provided each step finds a sub-directory.
pub open spec fn dir_at(root: Directory, location: Seq<Seq<char>>) -> Option<Directory>
    decreases location.len(),
{
    if location.len() == 0 {
        Some(root)
    } else {
        match dir_at(root, location.drop_last()) {
            Some(parent) => if parent.dirs_map().contains_key(location.last()) {
                Some(parent.dirs_map()[location.last()])
            } else {
                None
            },
            None => None,
        }
    }
}

/// Where `names` lead from the directory at `location`, told without the
/// ancestors: the parent of the directory at a location is the directory
/// at the location less its last name.
pub open spec fn locate(
    root: Directory,
    location: Seq<Seq<char>>,
    names: Seq<Seq<char>>,
) -> Option<EntryView>
    decreases names.len(),
{
    if names.len() == 0 {
        match dir_at(root, location) {
            Some(current) => Some(EntryView::Directory(current)),
            None => None,
        }
    } else {
        let name = names[0];
        let rest = names.drop_first();
        if name == parent_name() {
            if location.len() == 0 {
                locate(root, location, rest)
            } else {
                locate(root, location.drop_last(), rest)
            }
        } else if name == self_name() {
            locate(root, location, rest)
        } else {
            match dir_at(root, location) {
                Some(current) => if rest.len() == 0 && current.files_map().contains_key(name) {
                    Some(EntryView::File(current.files_map()[name]))
                } else if current.dirs_map().contains_key(name) {
                    locate(root, location.push(name), rest)
                } else {
                    None
                },
                None => None,
            }
        }
    }
}

/// `current` is the directory at `location`, and `ancestors` holds the
/// directories at the shorter beginnings of `location`, shortest first.
pub open spec fn stands_at(
    root: Directory,
    current: Directory,
    ancestors: Seq<Directory>,
    location: Seq<Seq<char>>,
) -> bool {
    &&& dir_at(root, location) == Some(current)
    &&& ancestors.len() == location.len()
    &&& forall|k: int|
        0 <= k < location.len() ==> dir_at(root, #[trigger] location.take(k)) == Some(ancestors[k])
}

/// The ancestors that a walk keeps are the directories on the way from the
/// root, so the walk finds what the locations alone tell.
pub proof fn lemma_walk_is_locate(
    root: Directory,
    current: Directory,
    ancestors: Seq<Directory>,
    location: Seq<Seq<char>>,
    names: Seq<Seq<char>>,
)
    requires
        stands_at(root, current, ancestors, location),
    ensures
        walk(root, current, ancestors, names) == locate(root, location, names),
    decreases names.len(),
{
    if names.len() > 0 {
        let name = names[0];
        let rest = names.drop_first();
        if name == parent_name() {
            if location.len() == 0 {
                lemma_walk_is_locate(root, root, ancestors, location, rest);
            } else {
                let shorter = location.drop_last();
                assert(location.take(location.len() - 1) =~= shorter);
                assert forall|k: int| 0 <= k < shorter.len() implies dir_at(
                    root,
                    #[trigger] shorter.take(k),
                ) == Some(ancestors.drop_last()[k]) by {
                    assert(shorter.take(k) =~= location.take(k));
                }
                lemma_walk_is_locate(root, ancestors.last(), ancestors.drop_last(), shorter, rest);
            }
        } else if name == self_name() {
            lemma_walk_is_locate(root, current, ancestors, location, rest);
        } else if !(rest.len() == 0 && current.files_map().contains_key(name))
            && current.dirs_map().contains_key(name) {
            let longer = location.push(name);
            assert(longer.drop_last() =~= location);
            assert forall|k: int| 0 <= k < longer.len() implies dir_at(
                root,
                #[trigger] longer.take(k),
            ) == Some(ancestors.push(current)[k]) by {
                assert(longer.take(k) =~= location.take(k));
                if k == location.len() {
                    assert(location.take(k) =~= location);
                }
            }
            lemma_walk_is_locate(
                root,
                current.dirs_map()[name],
                ancestors.push(current),
                longer,
                rest,
            );
        }
    }
}

/// From the root, a walk finds what the locations tell.
pub proof fn lemma_walk_from_is_locate(root: Directory, names: Seq<Seq<char>>)
    ensures
        walk_from(root, names) == locate(root, Seq::<Seq<char>>::empty(), names),
{
    lemma_walk_is_locate(
        root,
        root,
        Seq::<Directory>::empty(),
        Seq::<Seq<char>>::empty(),
        names,
    );
}

/// A tree and the path of the directory that commands start from.
pub struct Machine {
    pub cwd: Path,
    pub root_dir: Directory,
}

impl Machine {
    /// The path that is walked for `path`: itself where it is absolute,
    /// else the current directory's path continued by it.
    pub open spec fn full_path(&self, path: PathView) -> PathView {
        if path.is_absolute {
            path
        } else {
            compose_spec(self.cwd@, path)
        }
    }

    /// What `path` resolves to: where the components of its full path lead
    /// from the root.
    pub open spec fn resolve(&self, path: PathView) -> Option<EntryView> {
        walk_from(self.root_dir, self.full_path(path).components)
    }

    /// The current directory's path is absolute and resolves to a
    /// directory.
    pub open spec fn wf(&self) -> bool {
        &&& self.cwd@.is_absolute
        &&& self.resolve(self.cwd@) is Some
        &&& self.resolve(self.cwd@)->0 is Directory
    }

    /// A machine on the tree under `root_dir`, standing at its root.
    pub fn new(root_dir: Directory) -> (machine: Self)
        ensures
            machine.root_dir == root_dir,
            machine.cwd@ == root_spec(),
            machine.wf(),
    {
        Machine { cwd: Path::root(), root_dir }
    }

    /// Where `names` lead from the root.
    fn descend(&self, names: &Vec<String>) -> (found: Option<DirEntry<'_>>)
        ensures
            entry_view(found) == walk_from(self.root_dir, texts(names@)),
    {
        let ghost all = texts(names@);
        let mut stack: Vec<&Directory> = Vec::new();
        let mut current: &Directory = &self.root_dir;
        let mut i: usize = 0;
        proof {
            assert(all.skip(0) =~= all);
            assert(directories(stack@) =~= Seq::<Directory>::empty());
        }
        while i < names.len()
            invariant
                i <= names.len(),
                all == texts(names@),
                walk(self.root_dir, *current, directories(stack@), all.skip(i as int))
                    == walk_from(self.root_dir, all),
            decreases names.len() - i,
        {
            let name = names[i].as_str();
            let ghost ancestors = directories(stack@);
            proof {
                assert(all.skip(i as int)[0] == name@);
                assert(all.skip(i as int).drop_first() =~= all.skip(i + 1));
                assert(all.skip(i + 1).len() == 0 <==> i == names.len() - 1);
            }
            if same_text(name, "..") {
                match stack.pop() {
                    Some(dir) => {
                        proof {
                            assert(directories(stack@) =~= ancestors.drop_last());
                        }
                        current = dir;
                    },
                    None => {
                        current = &self.root_dir;
                    },
                }
            } else if same_text(name, ".") {
            } else {
                if i == names.len() - 1 {
                    match current.file(name) {
                        Some(file) => {
                            return Some(DirEntry::File(file));
                        },
                        None => {},
                    }
                }
                stack.push(current);
                proof {
                    assert(directories(stack@) =~= ancestors.push(*current));
                }
                match current.dir(name) {
                    Some(dir) => {
                        current = dir;
                    },
                    None => {
                        return None;
                    },
                }
            }
            i += 1;
        }
        Some(DirEntry::Directory(current))
    }

    /// Resolves `path` against the tree, as [`Machine::resolve`] says. A
    /// relative path is taken from the current directory.
    pub fn traverse(&self, path: &Path) -> (found: Option<DirEntry<'_>>)
        ensures
            entry_view(found) == self.resolve(path@),
    {
        if path.is_relative() {
            let full = self.cwd.clone().compose(path.clone());
            self.descend(full.components())
        } else {
            self.descend(path.components())
        }
    }

    /// Moves the current directory to `path`, taken from the current
    /// directory, where that resolves to a directory; else nothing changes.
    /// Says whether it moved.
    pub fn cd(&mut self, path: &Path) -> (moved: bool)
        ensures
            final(self).root_dir == old(self).root_dir,
            moved <==> old(self).resolve(compose_spec(old(self).cwd@, path@)) matches Some(
                EntryView::Directory(_),
            ),
            moved ==> final(self).cwd@ == compose_spec(old(self).cwd@, path@),
            !moved ==> final(self).cwd == old(self).cwd,
            old(self).wf() ==> final(self).wf(),
    {
        let target = self.cwd.clone().compose(path.clone());
        let moved = match self.traverse(&target) {
            Some(DirEntry::Directory(_)) => true,
            _ => false,
        };
        if moved {
            self.cwd = target;
        }
        moved
    }
}

/// Resolution reads the machine and the path and nothing else: two calls of
/// `traverse` on one machine with paths of one value find the same entry.
pub proof fn lemma_traverse_repeatable(
    machine: Machine,
    first: Path,
    second: Path,
    found_first: Option<DirEntry>,
    found_second: Option<DirEntry>,
)
    requires
        first@ == second@,
        entry_view(found_first) == machine.resolve(first@),
        entry_view(found_second) == machine.resolve(second@),
    ensures
        entry_view(found_first) == entry_view(found_second),
{
}

/// An absolute path resolves the same wherever the machine stands.
pub proof fn lemma_absolute_ignores_cwd(machine: Machine, elsewhere: Machine, path: PathView)
    requires
        path.is_absolute,
        machine.root_dir == elsewhere.root_dir,
    ensures
        machine.resolve(path) == elsewhere.resolve(path),
{
}

/// On any machine, an absolute path of parent names and self names alone
/// resolves to the root directory.
pub proof fn lemma_above_root_is_root(machine: Machine, path: PathView)
    requires
        path.is_absolute,
        forall|i: int|
            0 <= i < path.components.len() ==> #[trigger] path.components[i] == parent_name()
                || path.components[i] == self_name(),
    ensures
        machine.resolve(path) == Some(EntryView::Directory(machine.root_dir)),
{
    lemma_ascent_stays_at_root(machine.root_dir, path.components);
}

/// After the current directory has moved by `step`, a path resolves to what
/// `step` continued by that path resolved to before.
pub proof fn lemma_cd_then_resolve(before: Machine, after: Machine, step: PathView, path: PathView)
    requires
        after.root_dir == before.root_dir,
        after.cwd@ == compose_spec(before.cwd@, step),
    ensures
        after.resolve(path) == before.resolve(compose_spec(step, path)),
{
    crate::path::lemma_compose_associative(before.cwd@, step, path);
}

/// On a tree whose entries record their paths rightly as deep as the path
/// goes, an absolute path of plain names resolves, where it resolves, to the
/// entry that records that very path.
pub proof fn lemma_resolve_finds_location(machine: Machine, path: PathView)
    requires
        path.is_absolute,
        forall|i: int| 0 <= i < path.components.len() ==> is_plain(#[trigger] path.components[i]),
        machine.root_dir.location() == root_spec(),
        machine.root_dir.located(path.components.len()),
    ensures
        machine.resolve(path) matches Some(entry) ==> entry_location(entry) == path,
{
    lemma_walk_finds_location(
        machine.root_dir,
        machine.root_dir,
        Seq::<Directory>::empty(),
        path.components,
    );
    assert(root_spec().components + path.components =~= path.components);
}

} // verus!
