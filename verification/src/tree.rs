//! The tree: directories that own their files and sub-directories by name.

use crate::path::{Path, PathView};
use vstd::prelude::*;
use vstd::std_specs::iter::IteratorSpec;
use vstd::string::*;

verus! {

broadcast use vstd::string::group_string_axioms;

/// Whether two texts are the same, character by character.
pub fn same_text(a: &str, b: &str) -> (same: bool)
    ensures
        same == (a@ == b@),
{
    let mut left = a.chars();
    let mut right = b.chars();
    let ghost mut at: int = 0;
    loop
        invariant
            0 <= at <= a@.len(),
            at <= b@.len(),
            left.remaining() == a@.skip(at),
            right.remaining() == b@.skip(at),
            a@.take(at) == b@.take(at),
        decreases a@.len() - at,
    {
        let x = left.next();
        let y = right.next();
        match (x, y) {
            (Some(c), Some(d)) => {
                if c != d {
                    proof {
                        assert(a@[at] != b@[at]);
                    }
                    return false;
                }
                proof {
                    assert(a@.take(at + 1) =~= a@.take(at).push(c));
                    assert(b@.take(at + 1) =~= b@.take(at).push(d));
                    assert(a@.skip(at).drop_first() =~= a@.skip(at + 1));
                    assert(b@.skip(at).drop_first() =~= b@.skip(at + 1));
                    at = at + 1;
                }
            },
            (None, None) => {
                proof {
                    assert(a@.take(at) =~= a@);
                    assert(b@.take(at) =~= b@);
                }
                return true;
            },
            _ => {
                return false;
            },
        }
    }
}

/// The names of a list of named entries, in the list's order.
pub open spec fn entry_names<T>(entries: Seq<(String, T)>) -> Seq<Seq<char>> {
    entries.map_values(|e: (String, T)| e.0@)
}

/// `i` is the first place in `names` that holds `name`.
pub open spec fn first_at(names: Seq<Seq<char>>, name: Seq<char>, i: int) -> bool {
    &&& 0 <= i < names.len()
    &&& names[i] == name
    &&& forall|j: int| 0 <= j < i ==> names[j] != name
}

/// The first place in `names` that holds `name`, where there is one.
pub open spec fn position(names: Seq<Seq<char>>, name: Seq<char>) -> int {
    choose|i: int| first_at(names, name, i)
}

/// The mapping that a list of named entries stands for: each name that
/// occurs leads to the first entry under it.
pub open spec fn named<T>(entries: Seq<(String, T)>) -> Map<Seq<char>, T> {
    Map::new(
        |k: Seq<char>| entry_names(entries).contains(k),
        |k: Seq<char>| entries[position(entry_names(entries), k)].1,
    )
}

/// There is one first place at most: where `i` is it, it is the position.
pub proof fn lemma_position(names: Seq<Seq<char>>, name: Seq<char>, i: int)
    requires
        first_at(names, name, i),
    ensures
        position(names, name) == i,
{
    let p = position(names, name);
    assert(first_at(names, name, p));
    if p < i {
        assert(names[p] != name);
    } else if i < p {
        assert(names[i] != name);
    }
}

/// A name that occurs has a first place, and the position is it.
pub proof fn lemma_position_exists(names: Seq<Seq<char>>, name: Seq<char>)
    requires
        names.contains(name),
    ensures
        first_at(names, name, position(names, name)),
    decreases names.len(),
{
    let last = names.len() - 1;
    if names.drop_last().contains(name) {
        lemma_position_exists(names.drop_last(), name);
        let p = position(names.drop_last(), name);
        assert(first_at(names, name, p)) by {
            assert(names[p] == names.drop_last()[p]);
            assert forall|j: int| 0 <= j < p implies names[j] != name by {
                assert(names[j] == names.drop_last()[j]);
            }
        }
    } else {
        let i = choose|i: int| 0 <= i < names.len() && names[i] == name;
        if i < last {
            assert(names.drop_last()[i] == name);
        }
        assert forall|j: int| 0 <= j < last implies names[j] != name by {
            assert(names.drop_last()[j] == names[j]);
        }
        assert(first_at(names, name, last));
    }
}

/// A new name at the end of the list is a new key of the mapping.
pub proof fn lemma_named_push<T>(entries: Seq<(String, T)>, name: String, item: T)
    requires
        !entry_names(entries).contains(name@),
    ensures
        named(entries.push((name, item))) == named(entries).insert(name@, item),
        entry_names(entries.push((name, item))) == entry_names(entries).push(name@),
{
    let more = entries.push((name, item));
    let names = entry_names(entries);
    let more_names = entry_names(more);
    assert(more_names =~= names.push(name@));
    assert forall|k: Seq<char>| #[trigger] more_names.contains(k) <==> (names.contains(k) || k == name@) by {
        if names.contains(k) {
            let i = choose|i: int| 0 <= i < names.len() && names[i] == k;
            assert(more_names[i] == k);
        }
        if k == name@ {
            assert(more_names[names.len() as int] == k);
        }
        if more_names.contains(k) {
            let i = choose|i: int| 0 <= i < more_names.len() && more_names[i] == k;
            if i < names.len() {
                assert(names[i] == k);
            }
        }
    }
    assert forall|k: Seq<char>| more_names.contains(k) implies #[trigger] named(more)[k] == named(
        entries,
    ).insert(name@, item)[k] by {
        if k == name@ {
            assert forall|j: int| 0 <= j < names.len() implies more_names[j] != k by {
                assert(names[j] == more_names[j]);
            }
            assert(first_at(more_names, k, names.len() as int));
            lemma_position(more_names, k, names.len() as int);
        } else {
            lemma_position_exists(names, k);
            let p = position(names, k);
            assert(first_at(more_names, k, p)) by {
                assert(more_names[p] == names[p]);
                assert forall|j: int| 0 <= j < p implies more_names[j] != k by {
                    assert(more_names[j] == names[j]);
                }
            }
            lemma_position(more_names, k, p);
        }
    }
    assert(named(more) =~= named(entries).insert(name@, item));
}

/// Replacing the entry at the first place of its name replaces what the
/// name leads to, and nothing else.
pub proof fn lemma_named_update<T>(entries: Seq<(String, T)>, i: int, item: T)
    requires
        0 <= i < entries.len(),
        first_at(entry_names(entries), entries[i].0@, i),
    ensures
        named(entries.update(i, (entries[i].0, item))) == named(entries).insert(
            entries[i].0@,
            item,
        ),
        entry_names(entries.update(i, (entries[i].0, item))) == entry_names(entries),
{
    let name = entries[i].0;
    let changed = entries.update(i, (name, item));
    let names = entry_names(entries);
    assert(entry_names(changed) =~= names);
    assert(names.contains(name@));
    assert forall|k: Seq<char>| names.contains(k) implies #[trigger] named(changed)[k] == named(
        entries,
    ).insert(name@, item)[k] by {
        lemma_position_exists(names, k);
        if k == name@ {
            lemma_position(names, k, i);
        } else {
            assert(position(names, k) != i);
        }
    }
    assert(named(changed) =~= named(entries).insert(name@, item));
}

/// The first place in `entries` that is named `name`, if the name occurs.
fn find<T>(entries: &Vec<(String, T)>, name: &str) -> (found: Option<usize>)
    ensures
        match found {
            Some(i) => first_at(entry_names(entries@), name@, i as int),
            None => !entry_names(entries@).contains(name@),
        },
{
    let mut i: usize = 0;
    while i < entries.len()
        invariant
            i <= entries.len(),
            forall|j: int| 0 <= j < i ==> entry_names(entries@)[j] != name@,
        decreases entries.len() - i,
    {
        if same_text(entries[i].0.as_str(), name) {
            return Some(i);
        }
        i += 1;
    }
    None
}

/// What `create_dir` and `create_file` report when the name is taken.
#[derive(Debug)]
pub struct AlreadyExistsError;

impl AlreadyExistsError {
    /// The message of the error.
    pub fn message(&self) -> (text: String)
        ensures
            text@ == "tried to create directory or file, but object with that name already existed"@,
    {
        String::from_str(
            "tried to create directory or file, but object with that name already existed",
        )
    }
}

/// A leaf of the tree: a text and a flag, with the path it was created at.
#[derive(Debug)]
pub struct File {
    path: Path,
    pub data: String,
    pub is_executable: bool,
}

impl File {
    /// The path that the file was created at.
    pub closed spec fn location(&self) -> PathView {
        self.path@
    }

    /// The text that the file holds.
    pub closed spec fn content(&self) -> Seq<char> {
        self.data@
    }

    /// Whether the file may be run.
    pub closed spec fn executable(&self) -> bool {
        self.is_executable
    }

    /// A file without content that may not be run.
    pub open spec fn is_fresh(&self) -> bool {
        &&& self.content() == Seq::<char>::empty()
        &&& !self.executable()
    }

    /// The path that the file was created at.
    pub fn path(&self) -> (p: &Path)
        ensures
            p@ == self.location(),
    {
        &self.path
    }

    /// The text that the file holds.
    pub fn contents(&self) -> (text: &String)
        ensures
            text@ == self.content(),
    {
        &self.data
    }

    /// Whether the file may be run.
    pub fn can_execute(&self) -> (flag: bool)
        ensures
            flag == self.executable(),
    {
        self.is_executable
    }

    /// Replaces the text that the file holds.
    pub fn set_contents(&mut self, text: String)
        ensures
            final(self).content() == text@,
            final(self).executable() == old(self).executable(),
            final(self).location() == old(self).location(),
    {
        self.data = text;
    }

    /// Says whether the file may be run.
    pub fn set_executable(&mut self, flag: bool)
        ensures
            final(self).executable() == flag,
            final(self).content() == old(self).content(),
            final(self).location() == old(self).location(),
    {
        self.is_executable = flag;
    }
}

/// A node of the tree. It owns its files and its sub-directories, each kind
/// under names of its own.
#[derive(Debug)]
pub struct Directory {
    path: Path,
    files: Vec<(String, File)>,
    dirs: Vec<(String, Directory)>,
    pub is_writable: bool,
}

/// The path of an entry named `name` directly under `parent`.
pub open spec fn child_location(parent: PathView, name: Seq<char>) -> PathView {
    PathView { components: parent.components.push(name), is_absolute: parent.is_absolute }
}

/// How `create_dir` with `name` changes a directory, and whether it makes
/// one: it does unless a sub-directory of that name is there, and then it
/// changes nothing. Otherwise the name is new among the sub-directories, and
/// all else is as before.
pub open spec fn dir_creation(
    before: Directory,
    name: Seq<char>,
    made: bool,
    after: Directory,
) -> bool {
    if before.dirs_map().contains_key(name) {
        !made && after == before
    } else {
        &&& made
        &&& after.dirs_map().contains_key(name)
        &&& after.dirs_map().remove(name) == before.dirs_map()
        &&& after.files_map() == before.files_map()
        &&& after.location() == before.location()
        &&& after.writable() == before.writable()
        &&& before.wf() ==> after.wf()
    }
}

/// How `create_file` with `name` changes a directory, and whether it makes
/// one: as [`dir_creation`], with the files in place of the sub-directories.
pub open spec fn file_creation(
    before: Directory,
    name: Seq<char>,
    made: bool,
    after: Directory,
) -> bool {
    if before.files_map().contains_key(name) {
        !made && after == before
    } else {
        &&& made
        &&& after.files_map().contains_key(name)
        &&& after.files_map().remove(name) == before.files_map()
        &&& after.dirs_map() == before.dirs_map()
        &&& after.location() == before.location()
        &&& after.writable() == before.writable()
        &&& before.wf() ==> after.wf()
    }
}

impl Directory {
    /// The path that the directory was created at; the root's is the root path.
    pub closed spec fn location(&self) -> PathView {
        self.path@
    }

    /// The files directly in this directory, by name.
    pub closed spec fn files_map(&self) -> Map<Seq<char>, File> {
        named(self.files@)
    }

    /// The sub-directories directly in this directory, by name.
    pub closed spec fn dirs_map(&self) -> Map<Seq<char>, Directory> {
        named(self.dirs@)
    }

    /// Whether the directory may be written to.
    pub closed spec fn writable(&self) -> bool {
        self.is_writable
    }

    /// No name is held twice among the files, and none twice among the
    /// sub-directories. Holds of the root when made and is kept by every
    /// operation on the directory itself.
    pub closed spec fn wf(&self) -> bool {
        &&& entry_names(self.files@).no_duplicates()
        &&& entry_names(self.dirs@).no_duplicates()
    }

    /// Every file and every sub-directory directly in the directory records
    /// as its path the directory's path continued by its name. So it is
    /// after `create_dir` and `create_file`, until a caller puts another
    /// value in the place that was handed out.
    pub open spec fn children_located(&self) -> bool {
        &&& forall|name: Seq<char>| #[trigger]
            self.files_map().contains_key(name) ==> self.files_map()[name].location()
                == child_location(self.location(), name)
        &&& forall|name: Seq<char>| #[trigger]
            self.dirs_map().contains_key(name) ==> self.dirs_map()[name].location()
                == child_location(self.location(), name)
    }

    /// [`Directory::children_located`] holds of the directory and of what is
    /// below it, `depth` levels down.
    pub open spec fn located(&self, depth: nat) -> bool
        decreases depth,
    {
        depth == 0 || {
            &&& self.children_located()
            &&& forall|name: Seq<char>| #[trigger]
                self.dirs_map().contains_key(name) ==> self.dirs_map()[name].located(
                    (depth - 1) as nat,
                )
        }
    }

    /// A directory without files and sub-directories that is not writable.
    pub open spec fn is_fresh(&self) -> bool {
        &&& self.files_map() == Map::<Seq<char>, File>::empty()
        &&& self.dirs_map() == Map::<Seq<char>, Directory>::empty()
        &&& !self.writable()
        &&& self.wf()
    }

    /// The root of a new tree.
    pub fn new_root() -> (root: Self)
        ensures
            root.location() == crate::path::root_spec(),
            root.is_fresh(),
    {
        let root = Directory {
            path: Path::root(),
            files: Vec::new(),
            dirs: Vec::new(),
            is_writable: false,
        };
        proof {
            assert(root.files_map() =~= Map::<Seq<char>, File>::empty());
            assert(root.dirs_map() =~= Map::<Seq<char>, Directory>::empty());
        }
        root
    }

    /// The path that the directory was created at.
    pub fn path(&self) -> (p: &Path)
        ensures
            p@ == self.location(),
    {
        &self.path
    }

    /// Whether the directory may be written to.
    pub fn can_write(&self) -> (flag: bool)
        ensures
            flag == self.writable(),
    {
        self.is_writable
    }

    /// Says whether the directory may be written to. Nothing else changes.
    pub fn set_writable(&mut self, flag: bool)
        ensures
            final(self).writable() == flag,
            final(self).files_map() == old(self).files_map(),
            final(self).dirs_map() == old(self).dirs_map(),
            final(self).location() == old(self).location(),
            final(self).wf() == old(self).wf(),
    {
        self.is_writable = flag;
    }

    /// Makes an empty sub-directory under a name that no sub-directory has
    /// yet, and hands it out for the caller to fill. A file of that name
    /// does not stand in the way.
    pub fn create_dir(&mut self, name: String) -> (result: Result<
        &mut Directory,
        AlreadyExistsError,
    >)
        ensures
            dir_creation(*old(self), name@, result is Ok, *final(self)),
            result matches Ok(dir) ==> {
                &&& dir.location() == child_location(old(self).location(), name@)
                &&& dir.is_fresh()
                &&& final(self).dirs_map()[name@] == *final(dir)
            },
    {
        match find(&self.dirs, name.as_str()) {
            Some(_) => Err(AlreadyExistsError),
            None => {
                let child = Directory {
                    path: self.path.clone().with_component(name.clone()),
                    files: Vec::new(),
                    dirs: Vec::new(),
                    is_writable: false,
                };
                proof {
                    assert(child.files_map() =~= Map::<Seq<char>, File>::empty());
                    assert(child.dirs_map() =~= Map::<Seq<char>, Directory>::empty());
                    lemma_named_push(self.dirs@, name, child);
                }
                self.dirs.push((name, child));
                let last = self.dirs.len() - 1;
                let ghost pushed = self.dirs@;
                let dir = &mut self.dirs[last].1;
                proof {
                    let names = entry_names(pushed);
                    assert forall|j: int| 0 <= j < last implies names[j] != name@ by {
                        assert(names[j] == entry_names(old(self).dirs@)[j]);
                    }
                    lemma_named_update(pushed, last as int, *final(dir));
                    assert(old(self).dirs_map().insert(name@, child).insert(
                        name@,
                        *final(dir),
                    ).remove(name@) =~= old(self).dirs_map());
                }
                Ok(dir)
            },
        }
    }

    /// Makes an empty file under a name that no file has yet, and hands it
    /// out for the caller to fill. A sub-directory of that name does not
    /// stand in the way.
    pub fn create_file(&mut self, name: String) -> (result: Result<&mut File, AlreadyExistsError>)
        ensures
            file_creation(*old(self), name@, result is Ok, *final(self)),
            result matches Ok(file) ==> {
                &&& file.location() == child_location(old(self).location(), name@)
                &&& file.is_fresh()
                &&& final(self).files_map()[name@] == *final(file)
            },
    {
        match find(&self.files, name.as_str()) {
            Some(_) => Err(AlreadyExistsError),
            None => {
                let child = File {
                    path: self.path.clone().with_component(name.clone()),
                    data: String::new(),
                    is_executable: false,
                };
                proof {
                    lemma_named_push(self.files@, name, child);
                }
                self.files.push((name, child));
                let last = self.files.len() - 1;
                let ghost pushed = self.files@;
                let file = &mut self.files[last].1;
                proof {
                    let names = entry_names(pushed);
                    assert forall|j: int| 0 <= j < last implies names[j] != name@ by {
                        assert(names[j] == entry_names(old(self).files@)[j]);
                    }
                    lemma_named_update(pushed, last as int, *final(file));
                    assert(old(self).files_map().insert(name@, child).insert(
                        name@,
                        *final(file),
                    ).remove(name@) =~= old(self).files_map());
                }
                Ok(file)
            },
        }
    }

    /// The file of that name, if there is one.
    pub fn file(&self, name: &str) -> (found: Option<&File>)
        ensures
            found == if self.files_map().contains_key(name@) {
                Some(&self.files_map()[name@])
            } else {
                None
            },
    {
        match find(&self.files, name) {
            Some(i) => {
                proof {
                    lemma_position(entry_names(self.files@), name@, i as int);
                }
                Some(&self.files[i].1)
            },
            None => None,
        }
    }

    /// The sub-directory of that name, if there is one.
    pub fn dir(&self, name: &str) -> (found: Option<&Directory>)
        ensures
            found == if self.dirs_map().contains_key(name@) {
                Some(&self.dirs_map()[name@])
            } else {
                None
            },
    {
        match find(&self.dirs, name) {
            Some(i) => {
                proof {
                    lemma_position(entry_names(self.dirs@), name@, i as int);
                }
                Some(&self.dirs[i].1)
            },
            None => None,
        }
    }

    /// The file of that name, if there is one, for the caller to change.
    /// Nothing else in the directory changes.
    pub fn file_mut(&mut self, name: &str) -> (found: Option<&mut File>)
        ensures
            found is Some <==> old(self).files_map().contains_key(name@),
            found is None ==> *final(self) == *old(self),
            found matches Some(file) ==> {
                &&& *file == old(self).files_map()[name@]
                &&& final(self).files_map() == old(self).files_map().insert(name@, *final(file))
                &&& final(self).dirs_map() == old(self).dirs_map()
                &&& final(self).location() == old(self).location()
                &&& final(self).writable() == old(self).writable()
                &&& old(self).wf() ==> final(self).wf()
            },
    {
        match find(&self.files, name) {
            Some(i) => {
                let ghost entries = self.files@;
                let file = &mut self.files[i].1;
                proof {
                    lemma_position(entry_names(entries), name@, i as int);
                    lemma_named_update(entries, i as int, *final(file));
                }
                Some(file)
            },
            None => None,
        }
    }

    /// The sub-directory of that name, if there is one, for the caller to
    /// change. Nothing else in the directory changes.
    pub fn dir_mut(&mut self, name: &str) -> (found: Option<&mut Directory>)
        ensures
            found is Some <==> old(self).dirs_map().contains_key(name@),
            found is None ==> *final(self) == *old(self),
            found matches Some(dir) ==> {
                &&& *dir == old(self).dirs_map()[name@]
                &&& final(self).dirs_map() == old(self).dirs_map().insert(name@, *final(dir))
                &&& final(self).files_map() == old(self).files_map()
                &&& final(self).location() == old(self).location()
                &&& final(self).writable() == old(self).writable()
                &&& old(self).wf() ==> final(self).wf()
            },
    {
        match find(&self.dirs, name) {
            Some(i) => {
                let ghost entries = self.dirs@;
                let dir = &mut self.dirs[i].1;
                proof {
                    lemma_position(entry_names(entries), name@, i as int);
                    lemma_named_update(entries, i as int, *final(dir));
                }
                Some(dir)
            },
            None => None,
        }
    }

    /// The names of the files, each once where the directory is well formed.
    pub fn file_names(&self) -> (names: Vec<String>)
        ensures
            crate::path::texts(names@).to_set() == self.files_map().dom(),
            self.wf() ==> crate::path::texts(names@).no_duplicates(),
    {
        let names = names_of(&self.files);
        proof {
            assert(entry_names(self.files@).to_set() =~= self.files_map().dom());
        }
        names
    }

    /// The names of the sub-directories, each once where the directory is
    /// well formed.
    pub fn dir_names(&self) -> (names: Vec<String>)
        ensures
            crate::path::texts(names@).to_set() == self.dirs_map().dom(),
            self.wf() ==> crate::path::texts(names@).no_duplicates(),
    {
        let names = names_of(&self.dirs);
        proof {
            assert(entry_names(self.dirs@).to_set() =~= self.dirs_map().dom());
        }
        names
    }
}

/// Copies of the names of the entries, in the list's order.
fn names_of<T>(entries: &Vec<(String, T)>) -> (names: Vec<String>)
    ensures
        crate::path::texts(names@) == entry_names(entries@),
{
    let mut names: Vec<String> = Vec::new();
    let mut i: usize = 0;
    while i < entries.len()
        invariant
            i <= entries.len(),
            crate::path::texts(names@) == entry_names(entries@).take(i as int),
        decreases entries.len() - i,
    {
        let ghost before = names@;
        names.push(entries[i].0.clone());
        proof {
            crate::path::lemma_texts_push(before, entries[i as int].0);
            assert(crate::path::texts(names@) =~= entry_names(entries@).take(i + 1));
        }
        i += 1;
    }
    proof {
        assert(entry_names(entries@).take(i as int) =~= entry_names(entries@));
    }
    names
}

/// Making a sub-directory under one name twice: after the first call the
/// name is taken, whether that call made the directory or found one, so the
/// second call makes nothing and changes nothing, and the directory under
/// the name is still there. The first call makes a directory exactly where
/// the name was free.
pub proof fn lemma_create_dir_twice(
    start: Directory,
    name: Seq<char>,
    first_made: bool,
    between: Directory,
    second_made: bool,
    end: Directory,
)
    requires
        dir_creation(start, name, first_made, between),
        dir_creation(between, name, second_made, end),
    ensures
        first_made <==> !start.dirs_map().contains_key(name),
        between.dirs_map().contains_key(name),
        !second_made,
        end == between,
        end.dirs_map().contains_key(name),
        end.dirs_map()[name] == between.dirs_map()[name],
{
}

/// Making a file under one name twice: as [`lemma_create_dir_twice`].
pub proof fn lemma_create_file_twice(
    start: Directory,
    name: Seq<char>,
    first_made: bool,
    between: Directory,
    second_made: bool,
    end: Directory,
)
    requires
        file_creation(start, name, first_made, between),
        file_creation(between, name, second_made, end),
    ensures
        first_made <==> !start.files_map().contains_key(name),
        between.files_map().contains_key(name),
        !second_made,
        end == between,
        end.files_map().contains_key(name),
        end.files_map()[name] == between.files_map()[name],
{
}

/// The two kinds of names do not meet: making a sub-directory leaves the
/// files as they were, and making a file leaves the sub-directories.
pub proof fn lemma_creation_keeps_other_kind(
    before: Directory,
    name: Seq<char>,
    made: bool,
    after: Directory,
)
    ensures
        dir_creation(before, name, made, after) ==> after.files_map() == before.files_map(),
        file_creation(before, name, made, after) ==> after.dirs_map() == before.dirs_map(),
{
}

/// A directory without entries records every path below it rightly, there
/// being none.
pub proof fn lemma_fresh_is_located(dir: Directory, depth: nat)
    requires
        dir.is_fresh(),
    ensures
        dir.located(depth),
{
}

/// Making a sub-directory keeps the paths of the entries right, as long as
/// the new sub-directory is left with the path it was made with.
pub proof fn lemma_dir_creation_keeps_located(
    before: Directory,
    name: Seq<char>,
    made: bool,
    after: Directory,
)
    requires
        dir_creation(before, name, made, after),
        before.children_located(),
        after.dirs_map()[name].location() == child_location(before.location(), name),
    ensures
        after.children_located(),
{
    if made {
        assert forall|other: Seq<char>| #[trigger]
            after.dirs_map().contains_key(other) implies after.dirs_map()[other].location()
            == child_location(after.location(), other) by {
            if other != name {
                assert(after.dirs_map().remove(name).contains_key(other));
                assert(after.dirs_map().remove(name)[other] == after.dirs_map()[other]);
            }
        }
    }
}

/// Making a file keeps the paths of the entries right, as long as the new
/// file is left with the path it was made with.
pub proof fn lemma_file_creation_keeps_located(
    before: Directory,
    name: Seq<char>,
    made: bool,
    after: Directory,
)
    requires
        file_creation(before, name, made, after),
        before.children_located(),
        after.files_map()[name].location() == child_location(before.location(), name),
    ensures
        after.children_located(),
{
    if made {
        assert forall|other: Seq<char>| #[trigger]
            after.files_map().contains_key(other) implies after.files_map()[other].location()
            == child_location(after.location(), other) by {
            if other != name {
                assert(after.files_map().remove(name).contains_key(other));
                assert(after.files_map().remove(name)[other] == after.files_map()[other]);
            }
        }
    }
}

} // verus!
