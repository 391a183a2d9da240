//! Operations on the tree of directories and files.

use vstd::prelude::*;
use vstd::string::StringExecFns;
use crate::chars::{
    ascii_lower, decimal, lemma_split_len, parse_u64, parse_usize, split, split_on, split_pair,
    str_contains, str_eq, strs_of, texts_of, utf8_text, writes_upto,
};
use crate::clock::now_seconds;
use crate::tree::{
    first_dir_from, first_file_from, lemma_dir_view, lemma_first_dir, lemma_first_file,
    content_holds, lemma_node_view, lemma_put_back, lemma_same, meets, met, met_upto, name_holds,
    holds_file, query_key, query_ok, MatchView, Dir, DirView, File, FileType, Node, NodeView,
};

verus! {

broadcast use {lemma_dir_view, lemma_node_view, lemma_same};

impl File {
    /// An empty text file called `name`, stamped with the current time.
    pub fn new(name: String) -> (file: File)
        ensures
            file@.name == name@,
            file@.content.len() == 0,
            file@.type_ == FileType::Text,
    {
        File { name, content: Vec::new(), creation_time: now_seconds(), type_: FileType::Text }
    }

    /// A file with the given name, bytes and type, stamped with the current
    /// time; the time that is handed in is not used.
    pub fn new_with_content(name: String, content: Vec<u8>, creation_time: u64, type_: FileType) -> (file:
        File)
        ensures
            file@.name == name@,
            file@.content == content@,
            file@.type_ == type_,
    {
        File { name, content, creation_time: now_seconds(), type_ }
    }

    /// A copy of the file cut down to its first `len` bytes, or `None` if
    /// the file is no longer than that.
    pub fn truncate(&self, len: usize) -> (r: Option<File>)
        ensures
            match r {
                Some(file) => {
                    &&& self@.content.len() > len
                    &&& file@.name == self@.name
                    &&& file@.content == self@.content.take(len as int)
                    &&& file@.type_ == self@.type_
                },
                None => self@.content.len() <= len,
            },
    {
        if !self.content.is_empty() && self.content.len() > len {
            let mut trunc_content = self.content.clone();
            trunc_content.truncate(len);
            assert(trunc_content@ =~= self@.content.take(len as int));
            Some(File::new_with_content(self.name.clone(), trunc_content, self.creation_time, self.type_))
        } else {
            None
        }
    }
}

impl Dir {
    /// An empty directory called `name`, stamped with the current time.
    pub fn new(name: String) -> (dir: Dir)
        ensures
            dir@.name == name@,
            dir@.children.len() == 0,
    {
        Dir { name, creation_time: now_seconds(), children: Vec::new() }
    }

    /// The position of the first child directory called `name`.
    fn find_dir(&self, name: &str) -> (r: Option<usize>)
        ensures
            match r {
                Some(i) => self@.first_dir(name@) == Some(i as int),
                None => self@.first_dir(name@) is None,
            },
    {
        let mut i: usize = 0;
        while i < self.children.len()
            invariant
                i <= self.children.len(),
                self@.first_dir(name@) == first_dir_from(self@.children, name@, i as int),
            decreases self.children.len() - i,
        {
            match &self.children[i] {
                Node::Dir(d) => {
                    if str_eq(d.name.as_str(), name) {
                        return Some(i);
                    }
                },
                Node::File(_) => {},
            }
            i += 1;
        }
        None
    }

    /// The position of the first child file called `name`.
    fn find_file(&self, name: &str) -> (r: Option<usize>)
        ensures
            match r {
                Some(i) => self@.first_file(name@) == Some(i as int),
                None => self@.first_file(name@) is None,
            },
    {
        let mut i: usize = 0;
        while i < self.children.len()
            invariant
                i <= self.children.len(),
                self@.first_file(name@) == first_file_from(self@.children, name@, i as int),
            decreases self.children.len() - i,
        {
            match &self.children[i] {
                Node::File(f) => {
                    if str_eq(f.name.as_str(), name) {
                        return Some(i);
                    }
                },
                Node::Dir(_) => {},
            }
            i += 1;
        }
        None
    }

    /// The first child directory called `name`, to read or to change.
    pub fn lookup_dir(&mut self, name: &str) -> (r: Option<&mut Dir>)
        ensures
            match r {
                Some(dir) => {
                    &&& old(self)@.first_dir(name@) matches Some(i)
                    &&& NodeView::Dir(dir@) == old(self)@.children[i]
                    &&& final(self)@.same_as(old(self)@.with_child(i, NodeView::Dir(final(dir)@)))
                },
                None => old(self)@.first_dir(name@) is None && final(self)@.same_as(old(self)@),
            },
    {
        proof {
            lemma_first_dir(self@.children, name@, 0);
        }
        match self.find_dir(name) {
            Some(i) => {
                match &mut self.children[i] {
                    Node::Dir(dir) => Some(dir),
                    Node::File(_) => None,
                }
            },
            None => None,
        }
    }

    /// The first child file called `name`, to read or to change.
    pub fn lookup_file(&mut self, name: &str) -> (r: Option<&mut File>)
        ensures
            match r {
                Some(file) => {
                    &&& old(self)@.first_file(name@) matches Some(i)
                    &&& NodeView::File(file@) == old(self)@.children[i]
                    &&& final(self)@.same_as(old(self)@.with_child(i, NodeView::File(final(file)@)))
                },
                None => old(self)@.first_file(name@) is None && final(self)@.same_as(old(self)@),
            },
    {
        proof {
            lemma_first_file(self@.children, name@, 0);
        }
        match self.find_file(name) {
            Some(i) => {
                match &mut self.children[i] {
                    Node::File(file) => Some(file),
                    Node::Dir(_) => None,
                }
            },
            None => None,
        }
    }

    /// Adds an empty directory called `name`, unless there is one already.
    pub fn add_dir(&mut self, name: &str) -> (r: Result<bool, String>)
        ensures
            match r {
                Ok(done) => {
                    &&& done
                    &&& old(self)@.first_dir(name@) is None
                    &&& exists|time: u64|
                        final(self)@.same_as(
                            old(self)@.with_new(
                                NodeView::Dir(
                                    DirView {
                                        name: name@,
                                        creation_time: time,
                                        children: Seq::empty(),
                                    },
                                ),
                            ),
                        )
                },
                Err(message) => {
                    &&& old(self)@.first_dir(name@) is Some
                    &&& final(self)@.same_as(old(self)@)
                    &&& message@ == "Directory "@ + name@ + "already exists!"@
                },
            },
    {
        match self.find_dir(name) {
            Some(_) => {
                let mut message = String::from_str("Directory ");
                message.append(name);
                message.append("already exists!");
                Err(message)
            },
            None => {
                let new_dir = Dir::new(name.to_owned());
                let ghost added = new_dir@;
                self.children.push(Node::Dir(new_dir));
                proof {
                    assert(added.children =~= Seq::empty());
                    assert(self@.same_as(old(self)@.with_new(NodeView::Dir(added))));
                    assert(added == DirView {
                        name: name@,
                        creation_time: added.creation_time,
                        children: Seq::empty(),
                    });
                }
                Ok(true)
            },
        }
    }

    /// Removes the first directory called `name`, if it is empty. The last
    /// child takes the place of the one removed.
    pub fn rm_dir(&mut self, name: &str) -> (r: Result<bool, String>)
        ensures
            match old(self)@.first_dir(name@) {
                Some(i) => if old(self)@.children[i]->Dir_0.children.len() == 0 {
                    &&& r matches Ok(done) && done
                    &&& final(self)@.same_as(old(self)@.without(i))
                } else {
                    &&& r matches Err(message) && message@ == "Error: directory is not empty"@
                    &&& final(self)@.same_as(old(self)@)
                },
                None => {
                    &&& r matches Err(message) && message@ == "Error: can't find directory"@
                        + " "@ + name@
                    &&& final(self)@.same_as(old(self)@)
                },
            },
    {
        proof {
            lemma_first_dir(self@.children, name@, 0);
        }
        match self.find_dir(name) {
            Some(index) => {
                let empty = match &self.children[index] {
                    Node::Dir(dir) => dir.is_empty(),
                    Node::File(_) => false,
                };
                if !empty {
                    return Err(String::from_str("Error: directory is not empty"));
                }
                self.children.swap_remove(index);
                assert(self@.same_as(old(self)@.without(index as int)));
                Ok(true)
            },
            None => {
                let mut message = String::from_str("Error: can't find directory");
                message.append(" ");
                message.append(name);
                Err(message)
            },
        }
    }

    /// Adds `file`, unless there is a file of its name already.
    pub fn add_file(&mut self, file: File) -> (r: Result<bool, String>)
        ensures
            match r {
                Ok(done) => {
                    &&& done
                    &&& old(self)@.first_file(file@.name) is None
                    &&& final(self)@.same_as(old(self)@.with_new(NodeView::File(file@)))
                },
                Err(message) => {
                    &&& old(self)@.first_file(file@.name) is Some
                    &&& final(self)@.same_as(old(self)@)
                    &&& message@ == "File "@ + file@.name + "already exists!"@
                },
            },
    {
        match self.find_file(file.name.as_str()) {
            Some(_) => {
                let mut message = String::from_str("File ");
                message.append(file.name.as_str());
                message.append("already exists!");
                Err(message)
            },
            None => {
                self.children.push(Node::File(file));
                assert(self@.same_as(old(self)@.with_new(NodeView::File(file@))));
                Ok(true)
            },
        }
    }

    /// Removes the first file called `name`. The last child takes the place
    /// of the one removed.
    pub fn rm_file(&mut self, name: &str) -> (r: Result<bool, String>)
        ensures
            match old(self)@.first_file(name@) {
                Some(i) => {
                    &&& r matches Ok(done) && done
                    &&& final(self)@.same_as(old(self)@.without(i))
                },
                None => {
                    &&& r matches Err(message) && message@ == "Error: can't find file"@ + " "@
                        + name@
                    &&& final(self)@.same_as(old(self)@)
                },
            },
    {
        proof {
            lemma_first_file(self@.children, name@, 0);
        }
        match self.find_file(name) {
            Some(index) => {
                self.children.swap_remove(index);
                assert(self@.same_as(old(self)@.without(index as int)));
                Ok(true)
            },
            None => {
                let mut message = String::from_str("Error: can't find file");
                message.append(" ");
                message.append(name);
                Err(message)
            },
        }
    }

    /// Whether the directory has no children.
    pub fn is_empty(&self) -> (empty: bool)
        ensures
            empty == (self@.children.len() == 0),
    {
        self.children.is_empty()
    }
}

/// The file system: a root directory and what lies below it.
pub struct FileSystem {
    pub root: Dir,
}

impl View for FileSystem {
    type V = DirView;

    open spec fn view(&self) -> DirView {
        self.root@
    }
}

/// Each name in ASCII lower case.
pub open spec fn lowered(names: Seq<Seq<char>>) -> Seq<Seq<char>> {
    Seq::new(names.len(), |i: int| names[i].map_values(|c: char| ascii_lower(c)))
}

/// The positions to follow from the root to the directory that `names`
/// names: there are at least two names, the first is `root`, and each one in
/// turn, the first included, names a directory in the one before.
pub open spec fn route(root: DirView, names: Seq<Seq<char>>) -> Option<Seq<int>> {
    if names.len() >= 2 && names[0] == "root"@ {
        root.resolve(names)
    } else {
        None
    }
}

/// The texts as borrowed texts.
fn borrowed(texts: &Vec<String>) -> (r: Vec<&str>)
    ensures
        strs_of(r@) == texts_of(texts@),
{
    let mut r: Vec<&str> = Vec::new();
    let mut i: usize = 0;
    while i < texts.len()
        invariant
            i <= texts.len(),
            r@.len() == i,
            forall|k: int| 0 <= k < i ==> (#[trigger] r@[k])@ == texts@[k]@,
        decreases texts.len() - i,
    {
        r.push(texts[i].as_str());
        i += 1;
    }
    assert(strs_of(r@) =~= texts_of(texts@));
    r
}

impl FileSystem {
    /// A file system with an empty root directory called `root`.
    pub fn new() -> (fs: FileSystem)
        ensures
            fs@.name == "root"@,
            fs@.children.len() == 0,
    {
        FileSystem { root: Dir::new(String::from_str("root")) }
    }

    /// The directory that the path `entries` names, to read or to change.
    /// Upper-case ASCII letters in the path count as lower case.
    pub fn exists_path(&mut self, entries: &Vec<&str>) -> (r: Option<&mut Dir>)
        requires
            entries@.len() > 0,
        ensures
            match r {
                Some(dir) => {
                    &&& route(old(self)@, lowered(strs_of(entries@))) matches Some(path)
                    &&& dir@ == old(self)@.at(path)
                    &&& final(self)@ == old(self)@.put(path, final(dir)@)
                },
                None => {
                    &&& route(old(self)@, lowered(strs_of(entries@))) is None
                    &&& final(self)@ == old(self)@
                },
            },
    {
        let mut names: Vec<String> = Vec::new();
        let mut i: usize = 0;
        while i < entries.len()
            invariant
                i <= entries.len(),
                names@.len() == i,
                forall|k: int|
                    0 <= k < i ==> (#[trigger] names@[k])@ == entries@[k]@.map_values(
                        |c: char| ascii_lower(c),
                    ),
            decreases entries.len() - i,
        {
            names.push(entries[i].to_ascii_lowercase());
            i += 1;
        }
        assert(names_from(names@, 0) =~= lowered(strs_of(entries@)));
        if !str_eq(names[0].as_str(), "root") || names.len() < 2 {
            return None;
        }
        descend(&mut self.root, &names, 0)
    }

    /// Creates the directory that `path` names, in the directory that the
    /// rest of the path names, unless that does not exist or holds a
    /// directory of that name already.
    pub fn mk_dir(&mut self, path: &str)
        ensures
            ({
                let parts = split(path@, '/');
                match route(old(self)@, lowered(parts.drop_last())) {
                    Some(way) => if old(self)@.at(way).first_dir(parts.last()) is None {
                        exists|time: u64|
                            final(self)@ == old(self)@.put(
                                way,
                                old(self)@.at(way).with_new(
                                    NodeView::Dir(
                                        DirView {
                                            name: parts.last(),
                                            creation_time: time,
                                            children: Seq::empty(),
                                        },
                                    ),
                                ),
                            )
                    } else {
                        final(self)@ == old(self)@
                    },
                    None => final(self)@ == old(self)@,
                }
            }),
    {
        let mut entries = split_on(path, '/');
        if entries.len() < 2 {
            proof {
                assert(lowered(split(path@, '/').drop_last()).len() < 2);
            }
            return ;
        }
        let ghost parts = texts_of(entries@);
        let new_dir_name = entries.pop().unwrap();
        proof {
            assert(texts_of(entries@) =~= parts.drop_last());
            assert(new_dir_name@ == parts.last());
            lemma_put_back(self@, lowered(parts.drop_last()));
        }
        let refs = borrowed(&entries);
        match self.exists_path(&refs) {
            Some(mnt) => {
                let _ = mnt.add_dir(new_dir_name.as_str());
            },
            None => {},
        }
    }

    /// Removes the directory that `path` names from the directory that the
    /// rest of the path names, if it is there and empty.
    pub fn rm_dir(&mut self, path: &str)
        ensures
            ({
                let parts = split(path@, '/');
                match route(old(self)@, lowered(parts.drop_last())) {
                    Some(way) => match old(self)@.at(way).first_dir(parts.last()) {
                        Some(i) => if old(self)@.at(way).children[i]->Dir_0.children.len() == 0 {
                            final(self)@ == old(self)@.put(way, old(self)@.at(way).without(i))
                        } else {
                            final(self)@ == old(self)@
                        },
                        None => final(self)@ == old(self)@,
                    },
                    None => final(self)@ == old(self)@,
                }
            }),
    {
        let mut entries = split_on(path, '/');
        if entries.len() < 2 {
            proof {
                assert(lowered(split(path@, '/').drop_last()).len() < 2);
            }
            return ;
        }
        let ghost parts = texts_of(entries@);
        let to_be_rm = entries.pop().unwrap();
        proof {
            assert(texts_of(entries@) =~= parts.drop_last());
            assert(to_be_rm@ == parts.last());
            lemma_put_back(self@, lowered(parts.drop_last()));
        }
        let refs = borrowed(&entries);
        match self.exists_path(&refs) {
            Some(parent) => {
                let _ = parent.rm_dir(to_be_rm.as_str());
            },
            None => {},
        }
    }

    /// Adds `file` to the directory that `path` names, unless that does not
    /// exist or holds a file of that name already.
    pub fn new_file(&mut self, path: &str, file: File)
        ensures
            match route(old(self)@, lowered(split(path@, '/'))) {
                Some(way) => if old(self)@.at(way).first_file(file@.name) is None {
                    final(self)@ == old(self)@.put(
                        way,
                        old(self)@.at(way).with_new(NodeView::File(file@)),
                    )
                } else {
                    final(self)@ == old(self)@
                },
                None => final(self)@ == old(self)@,
            },
    {
        let entries = split_on(path, '/');
        proof {
            lemma_split_len(path@, '/');
            lemma_put_back(self@, lowered(split(path@, '/')));
        }
        let refs = borrowed(&entries);
        match self.exists_path(&refs) {
            Some(mnt) => {
                let _ = mnt.add_file(file);
            },
            None => {},
        }
    }

    /// Removes the file that `path` names from the directory that the rest
    /// of the path names, if it is there.
    pub fn rm_file(&mut self, path: &str)
        ensures
            ({
                let parts = split(path@, '/');
                match route(old(self)@, lowered(parts.drop_last())) {
                    Some(way) => match old(self)@.at(way).first_file(parts.last()) {
                        Some(i) => final(self)@ == old(self)@.put(
                            way,
                            old(self)@.at(way).without(i),
                        ),
                        None => final(self)@ == old(self)@,
                    },
                    None => final(self)@ == old(self)@,
                }
            }),
    {
        let mut entries = split_on(path, '/');
        if entries.len() < 2 {
            proof {
                assert(lowered(split(path@, '/').drop_last()).len() < 2);
            }
            return ;
        }
        let ghost parts = texts_of(entries@);
        let to_be_rm = entries.pop().unwrap();
        proof {
            assert(texts_of(entries@) =~= parts.drop_last());
            assert(to_be_rm@ == parts.last());
            lemma_put_back(self@, lowered(parts.drop_last()));
        }
        let refs = borrowed(&entries);
        match self.exists_path(&refs) {
            Some(parent) => {
                let _ = parent.rm_file(to_be_rm.as_str());
            },
            None => {},
        }
    }
}

impl FileSystem {
    /// The file that `path` names, in the directory that the rest of the
    /// path names, to read or to change.
    pub fn get_file(&mut self, path: &str) -> (r: Option<&mut File>)
        ensures
            ({
                let parts = split(path@, '/');
                match r {
                    Some(file) => {
                        &&& route(old(self)@, lowered(parts.drop_last())) matches Some(way)
                        &&& old(self)@.at(way).first_file(parts.last()) matches Some(i)
                        &&& NodeView::File(file@) == old(self)@.at(way).children[i]
                        &&& final(self)@ == old(self)@.put(
                            way,
                            old(self)@.at(way).with_child(i, NodeView::File(final(file)@)),
                        )
                    },
                    None => {
                        &&& route(old(self)@, lowered(parts.drop_last())) matches Some(way)
                            ==> old(self)@.at(way).first_file(parts.last()) is None
                        &&& final(self)@ == old(self)@
                    },
                }
            }),
    {
        let mut entries = split_on(path, '/');
        if entries.len() < 2 {
            proof {
                assert(lowered(split(path@, '/').drop_last()).len() < 2);
            }
            return None;
        }
        let ghost parts = texts_of(entries@);
        let file_name = entries.pop().unwrap();
        proof {
            assert(texts_of(entries@) =~= parts.drop_last());
            assert(file_name@ == parts.last());
            lemma_put_back(self@, lowered(parts.drop_last()));
        }
        let refs = borrowed(&entries);
        match self.exists_path(&refs) {
            Some(parent) => parent.lookup_file(file_name.as_str()),
            None => None,
        }
    }

    /// The queries that the file meets, in order, or `None` if it meets none.
    pub fn filters<'a>(node: &File, queries: &'a [&'a str]) -> (r: Option<Vec<&'a str>>)
        requires
            forall|i: int| 0 <= i < queries@.len() ==> query_ok(#[trigger] queries@[i]@),
        ensures
            match r {
                Some(matched) => matched@.len() > 0 && strs_of(matched@) == met(
                    node@,
                    strs_of(queries@),
                ),
                None => met(node@, strs_of(queries@)).len() == 0,
            },
    {
        let mut matched_queries: Vec<&str> = Vec::new();
        let mut i: usize = 0;
        while i < queries.len()
            invariant
                i <= queries.len(),
                forall|i: int| 0 <= i < queries@.len() ==> query_ok(#[trigger] queries@[i]@),
                strs_of(matched_queries@) == met_upto(node@, strs_of(queries@), i as int),
            decreases queries.len() - i,
        {
            let query = queries[i];
            assert(query_ok(queries@[i as int]@));
            assert(strs_of(queries@)[i as int] == query@);
            let ghost before = strs_of(matched_queries@);
            let hit = match split_pair(query, ':') {
                Some((key, val)) => {
                    let key = key.to_ascii_lowercase();
                    assert(key@ == query_key(query@));
                    if str_eq(key.as_str(), "name") {
                        Self::filter_name(val, node)
                    } else if str_eq(key.as_str(), "content") {
                        Self::filter_content(val, node)
                    } else if str_eq(key.as_str(), "larger") {
                        Self::filter_larger(val, node)
                    } else if str_eq(key.as_str(), "smaller") {
                        Self::filter_smaller(val, node)
                    } else if str_eq(key.as_str(), "older") {
                        Self::filter_older(val, node)
                    } else if str_eq(key.as_str(), "newer") {
                        Self::filter_newer(val, node)
                    } else {
                        false
                    }
                },
                None => false,
            };
            assert(hit == meets(node@, query@));
            if hit {
                matched_queries.push(query);
                assert(strs_of(matched_queries@) =~= before.push(query@));
            }
            i += 1;
        }
        if matched_queries.is_empty() {
            None
        } else {
            Some(matched_queries)
        }
    }

    /// Whether the file's name holds `name`.
    pub fn filter_name(name: &str, node: &File) -> (r: bool)
        ensures
            r == name_holds(node@, name@),
    {
        str_contains(node.name.as_str(), name)
    }

    /// Whether the file is a text file whose bytes are valid UTF-8 and hold `content`.
    pub fn filter_content(content: &str, node: &File) -> (r: bool)
        ensures
            r == content_holds(node@, content@),
    {
        if node.type_ == FileType::Text {
            match utf8_text(node.content.as_slice()) {
                Some(file_content) => str_contains(file_content, content),
                None => false,
            }
        } else {
            false
        }
    }

    /// Whether the file holds more bytes than the number that `thrs` writes.
    pub fn filter_larger(thrs: &str, node: &File) -> (r: bool)
        requires
            writes_upto(thrs@, usize::MAX as int),
        ensures
            r == (node@.content.len() > decimal(thrs@).unwrap()),
    {
        node.content.len() > parse_usize(thrs).unwrap()
    }

    /// Whether the file holds fewer bytes than the number that `thrs` writes.
    pub fn filter_smaller(thrs: &str, node: &File) -> (r: bool)
        requires
            writes_upto(thrs@, usize::MAX as int),
        ensures
            r == (node@.content.len() < decimal(thrs@).unwrap()),
    {
        node.content.len() < parse_usize(thrs).unwrap()
    }

    /// Whether the file was created after the time that `timestamp` writes.
    pub fn filter_newer(timestamp: &str, node: &File) -> (r: bool)
        requires
            writes_upto(timestamp@, u64::MAX as int),
        ensures
            r == (node@.creation_time > decimal(timestamp@).unwrap()),
    {
        node.creation_time > parse_u64(timestamp).unwrap()
    }

    /// Whether the file was created before the time that `timestamp` writes.
    pub fn filter_older(timestamp: &str, node: &File) -> (r: bool)
        requires
            writes_upto(timestamp@, u64::MAX as int),
        ensures
            r == (node@.creation_time < decimal(timestamp@).unwrap()),
    {
        node.creation_time < parse_u64(timestamp).unwrap()
    }
}

/// What a search has found: the queries that were met, file by file, and
/// the files that met them.
pub struct MatchResult<'a> {
    queries: Vec<&'a str>,
    nodes: Vec<&'a Node>,
}

impl<'a> View for MatchResult<'a> {
    type V = MatchView;

    closed spec fn view(&self) -> MatchView {
        MatchView {
            queries: strs_of(self.queries@),
            nodes: Seq::new(self.nodes@.len(), |i: int| self.nodes@[i]@),
        }
    }
}

impl<'a> MatchResult<'a> {
    /// The queries that were met, file by file.
    pub fn queries(&self) -> (r: &Vec<&'a str>)
        ensures
            strs_of(r@) == self@.queries,
    {
        &self.queries
    }

    /// The files that met a query, in the order in which they were found.
    pub fn nodes(&self) -> (r: &Vec<&'a Node>)
        ensures
            r@.len() == self@.nodes.len(),
            forall|i: int| 0 <= i < r@.len() ==> (#[trigger] r@[i])@ == self@.nodes[i],
    {
        &self.nodes
    }
}

/// Adds what `dir` and the directories below it hold to `mr`: first the
/// files of `dir` itself, then its directories, the last one first.
fn collect<'a>(dir: &'a Dir, queries: &'a [&'a str], mr: &mut MatchResult<'a>)
    requires
        holds_file(dir@) ==> forall|i: int|
            0 <= i < queries@.len() ==> query_ok(#[trigger] queries@[i]@),
    ensures
        final(mr)@ == old(mr)@.with_tree(dir@, strs_of(queries@)),
    decreases dir,
{
    let ghost asked = strs_of(queries@);
    let ghost start = mr@;
    let n = dir.children.len();
    let mut i: usize = 0;
    while i < n
        invariant
            i <= n,
            n == dir.children@.len(),
            asked == strs_of(queries@),
            holds_file(dir@) ==> forall|i: int|
                0 <= i < queries@.len() ==> query_ok(#[trigger] queries@[i]@),
            mr@ == start.with_files(dir@.children, asked, i as int),
        decreases n - i,
    {
        let child = &dir.children[i];
        match child {
            Node::File(f) => {
                proof {
                    assert(dir@.children[i as int] == NodeView::File(f@));
                    assert(holds_file(dir@));
                }
                match FileSystem::filters(f, queries) {
                    Some(matched_queries) => {
                        let ghost before = mr@;
                        let mut k: usize = 0;
                        while k < matched_queries.len()
                            invariant
                                k <= matched_queries.len(),
                                mr@.nodes == before.nodes,
                                mr@.queries == before.queries + strs_of(matched_queries@).take(
                                    k as int,
                                ),
                            decreases matched_queries.len() - k,
                        {
                            let ghost prev = mr@.queries;
                            mr.queries.push(matched_queries[k]);
                            assert(mr@.queries =~= prev.push(matched_queries@[k as int]@));
                            assert(strs_of(matched_queries@).take(k as int + 1) =~= strs_of(
                                matched_queries@,
                            ).take(k as int).push(matched_queries@[k as int]@));
                            assert(mr@.queries =~= before.queries + strs_of(matched_queries@).take(
                                k as int + 1,
                            ));
                            assert(mr@.nodes =~= before.nodes);
                            k += 1;
                        }
                        mr.nodes.push(child);
                        proof {
                            assert(strs_of(matched_queries@).take(matched_queries@.len() as int)
                                =~= strs_of(matched_queries@));
                            assert(mr@.nodes =~= before.nodes.push(NodeView::File(f@)));
                            assert(mr@.queries =~= before.queries + strs_of(matched_queries@));
                        }
                    },
                    None => {},
                }
            },
            Node::Dir(_) => {},
        }
        i += 1;
    }
    let ghost filed = mr@;
    let mut i: usize = n;
    while i > 0
        invariant
            i <= n,
            n == dir.children@.len(),
            asked == strs_of(queries@),
            holds_file(dir@) ==> forall|i: int|
                0 <= i < queries@.len() ==> query_ok(#[trigger] queries@[i]@),
            mr@ == filed.with_dirs(dir@, asked, i as int),
        decreases i,
    {
        i -= 1;
        match &dir.children[i] {
            Node::Dir(d) => {
                proof {
                    assert(dir@.children[i as int] == NodeView::Dir(d@));
                    if holds_file(d@) {
                        assert(holds_file(dir@));
                    }
                }
                collect(d, queries, mr);
            },
            Node::File(_) => {},
        }
    }
}

impl FileSystem {
    /// Looks through the whole tree for the files that meet at least one of
    /// the queries. A query is a key, a colon and a value; the keys are
    /// `name`, `content`, `larger`, `smaller`, `newer` and `older`, in either
    /// case. Returns `None` if no file meets any query.
    pub fn search<'a>(&'a mut self, queries: &'a [&'a str]) -> (r: Option<MatchResult<'a>>)
        requires
            holds_file(old(self)@) ==> forall|i: int|
                0 <= i < queries@.len() ==> query_ok(#[trigger] queries@[i]@),
        ensures
            ({
                let found = (MatchView { queries: Seq::empty(), nodes: Seq::empty() }).with_tree(
                    old(self)@,
                    strs_of(queries@),
                );
                match r {
                    Some(mr) => mr@ == found && found.nodes.len() > 0,
                    None => found.nodes.len() == 0,
                }
            }),
            final(self)@ == old(self)@,
    {
        let mut mr: MatchResult<'a> = MatchResult { queries: Vec::new(), nodes: Vec::new() };
        assert(mr@.queries =~= Seq::empty() && mr@.nodes =~= Seq::empty());
        let root: &'a Dir = &self.root;
        collect(root, queries, &mut mr);
        if mr.nodes.is_empty() {
            None
        } else {
            Some(mr)
        }
    }
}

/// Goes down from `dir` through the directories that `names` names from
/// position `k` on.
fn descend<'a>(dir: &'a mut Dir, names: &Vec<String>, k: usize) -> (r: Option<&'a mut Dir>)
    requires
        k <= names@.len(),
    ensures
        match r {
            Some(found) => {
                &&& old(dir)@.resolve(names_from(names@, k as int)) matches Some(path)
                &&& found@ == old(dir)@.at(path)
                &&& final(dir)@ == old(dir)@.put(path, final(found)@)
            },
            None => {
                &&& old(dir)@.resolve(names_from(names@, k as int)) is None
                &&& final(dir)@ == old(dir)@
            },
        },
    decreases names@.len() - k,
{
    if k == names.len() {
        return Some(dir);
    }
    proof {
        lemma_first_dir(dir@.children, names@[k as int]@, 0);
        assert(names_from(names@, k as int).drop_first() =~= names_from(names@, k as int + 1));
        assert(names_from(names@, k as int)[0] == names@[k as int]@);
        let here = dir@;
        if let Some(i) = here.first_dir(names@[k as int]@) {
            assert(here.children.update(i, here.children[i]) =~= here.children);
            if let NodeView::Dir(below) = here.children[i] {
                if let Some(rest) = below.resolve(names_from(names@, k as int + 1)) {
                    let path = seq![i] + rest;
                    assert(path[0] == i);
                    assert(path.drop_first() =~= rest);
                    assert(here.at(path) == below.at(rest));
                    assert forall|new: DirView| #[trigger]
                        here.put(path, new) == here.with_child(
                            i,
                            NodeView::Dir(below.put(rest, new)),
                        ) by {}
                }
            }
        }
    }
    match dir.lookup_dir(names[k].as_str()) {
        Some(child) => descend(child, names, k + 1),
        None => None,
    }
}

/// The texts of `names` from position `k` on.
pub open spec fn names_from(names: Seq<String>, k: int) -> Seq<Seq<char>> {
    Seq::new((names.len() - k) as nat, |i: int| names[k + i]@)
}

} // verus!
