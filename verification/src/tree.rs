//! The tree of directories and files, as data and as mathematical values.

use vstd::prelude::*;
use crate::chars::{
    ascii_lower, count_char, decimal, first_char, has_substring, writes_upto,
};

verus! {

/// What a file holds.
#[derive(Copy, Clone, PartialEq, Eq, Debug, Structural)]
pub enum FileType {
    Text,
    Binary,
}

/// A file: a name, its bytes, the time of its creation and its type.
#[derive(Clone, PartialEq, Debug)]
pub struct File {
    pub name: String,
    pub content: Vec<u8>,
    pub creation_time: u64,
    pub type_: FileType,
}

/// A directory: a name, the time of its creation and its children.
#[derive(PartialEq, Debug)]
pub struct Dir {
    pub name: String,
    pub creation_time: u64,
    pub children: Vec<Node>,
}

/// A child of a directory.
#[derive(PartialEq, Debug)]
pub enum Node {
    File(File),
    Dir(Dir),
}

/// A file as a mathematical value.
pub struct FileView {
    pub name: Seq<char>,
    pub content: Seq<u8>,
    pub creation_time: u64,
    pub type_: FileType,
}

/// A directory as a mathematical value.
pub struct DirView {
    pub name: Seq<char>,
    pub creation_time: u64,
    pub children: Seq<NodeView>,
}

/// A child of a directory as a mathematical value.
pub enum NodeView {
    File(FileView),
    Dir(DirView),
}

impl View for File {
    type V = FileView;

    open spec fn view(&self) -> FileView {
        FileView {
            name: self.name@,
            content: self.content@,
            creation_time: self.creation_time,
            type_: self.type_,
        }
    }
}

impl View for Dir {
    type V = DirView;

    open spec fn view(&self) -> DirView
        decreases self,
    {
        DirView {
            name: self.name@,
            creation_time: self.creation_time,
            children: Seq::new(
                self.children@.len(),
                |i: int|
                    if 0 <= i < self.children@.len() {
                        self.children@[i].view()
                    } else {
                        arbitrary()
                    },
            ),
        }
    }
}

impl View for Node {
    type V = NodeView;

    open spec fn view(&self) -> NodeView
        decreases self,
    {
        match self {
            Node::File(f) => NodeView::File(f@),
            Node::Dir(d) => NodeView::Dir(d.view()),
        }
    }
}

/// What the view of a directory and of a child are made of.
pub broadcast proof fn lemma_dir_view(dir: &Dir)
    ensures
        (#[trigger] dir@).name == dir.name@,
        dir@.creation_time == dir.creation_time,
        dir@.children.len() == dir.children@.len(),
        forall|i: int| 0 <= i < dir.children@.len() ==> dir@.children[i] == dir.children@[i]@,
{
    reveal_with_fuel(<Dir as View>::view, 2);
    let children = dir.view().children;
    assert(children.len() == dir.children@.len());
}

/// What the view of a child is made of.
pub broadcast proof fn lemma_node_view(node: &Node)
    ensures
        #[trigger] node@ == match node {
            Node::File(f) => NodeView::File(f@),
            Node::Dir(d) => NodeView::Dir(d@),
        },
{
}

/// The key of a query: the text before its colon, in lower case.
pub open spec fn query_key(query: Seq<char>) -> Seq<char> {
    query.take(first_char(query, ':')).map_values(|c: char| ascii_lower(c))
}

/// The value of a query: the text after its colon.
pub open spec fn query_value(query: Seq<char>) -> Seq<char> {
    query.skip(first_char(query, ':') + 1)
}

/// The query can be put to a file: where it compares a size or a time, its
/// value is a decimal number that fits.
pub open spec fn query_ok(query: Seq<char>) -> bool {
    let key = query_key(query);
    let value = query_value(query);
    &&& count_char(query, ':') == 1 && (key == "larger"@ || key == "smaller"@) ==> writes_upto(
        value,
        usize::MAX as int,
    )
    &&& count_char(query, ':') == 1 && (key == "newer"@ || key == "older"@) ==> writes_upto(
        value,
        u64::MAX as int,
    )
}

/// The file's name holds `name`.
pub open spec fn name_holds(file: FileView, name: Seq<char>) -> bool {
    has_substring(file.name, name)
}

/// The file is a text file whose bytes are valid UTF-8 and hold `text`.
pub open spec fn content_holds(file: FileView, text: Seq<char>) -> bool {
    &&& file.type_ == FileType::Text
    &&& vstd::utf8::valid_utf8(file.content)
    &&& has_substring(vstd::utf8::decode_utf8(file.content), text)
}

/// The file meets the query: the query has a key and a value around one
/// colon, the key names one of the tests, and the file passes it.
pub open spec fn meets(file: FileView, query: Seq<char>) -> bool {
    let key = query_key(query);
    let value = query_value(query);
    count_char(query, ':') == 1 && if key == "name"@ {
        name_holds(file, value)
    } else if key == "content"@ {
        content_holds(file, value)
    } else if key == "larger"@ {
        file.content.len() > decimal(value).unwrap()
    } else if key == "smaller"@ {
        file.content.len() < decimal(value).unwrap()
    } else if key == "older"@ {
        file.creation_time < decimal(value).unwrap()
    } else if key == "newer"@ {
        file.creation_time > decimal(value).unwrap()
    } else {
        false
    }
}

/// Those of the first `n` queries that the file meets, in order.
pub open spec fn met_upto(file: FileView, queries: Seq<Seq<char>>, n: int) -> Seq<Seq<char>>
    decreases n,
{
    if n <= 0 {
        Seq::empty()
    } else if meets(file, queries[n - 1]) {
        met_upto(file, queries, n - 1).push(queries[n - 1])
    } else {
        met_upto(file, queries, n - 1)
    }
}

/// The queries that the file meets, in order.
pub open spec fn met(file: FileView, queries: Seq<Seq<char>>) -> Seq<Seq<char>> {
    met_upto(file, queries, queries.len() as int)
}

/// What a search has found: the queries met, file by file, and the files.
pub struct MatchView {
    pub queries: Seq<Seq<char>>,
    pub nodes: Seq<NodeView>,
}

impl MatchView {
    /// The result with `file` taken into account: if it meets any query, the
    /// queries it meets and the file itself are added.
    pub open spec fn with_file(self, file: FileView, queries: Seq<Seq<char>>) -> MatchView {
        if met(file, queries).len() > 0 {
            MatchView {
                queries: self.queries + met(file, queries),
                nodes: self.nodes.push(NodeView::File(file)),
            }
        } else {
            self
        }
    }

    /// The result with the files among the first `n` of `children` taken
    /// into account, in order.
    pub open spec fn with_files(self, children: Seq<NodeView>, queries: Seq<Seq<char>>, n: int) -> MatchView
        decreases n,
    {
        if n <= 0 {
            self
        } else {
            let before = self.with_files(children, queries, n - 1);
            match children[n - 1] {
                NodeView::File(file) => before.with_file(file, queries),
                NodeView::Dir(_) => before,
            }
        }
    }

    /// The result with the directories among the children of `dir` from
    /// position `n` on taken into account, the last of them first.
    pub open spec fn with_dirs(self, dir: DirView, queries: Seq<Seq<char>>, n: int) -> MatchView
        decreases dir, dir.children.len() - n,
    {
        if n < 0 || n >= dir.children.len() {
            self
        } else {
            let before = self.with_dirs(dir, queries, n + 1);
            match dir.children[n] {
                NodeView::Dir(child) => before.with_tree(child, queries),
                NodeView::File(_) => before,
            }
        }
    }

    /// The result with everything in `dir` taken into account: first the
    /// files of `dir` itself, in order, then its directories, the last first.
    pub open spec fn with_tree(self, dir: DirView, queries: Seq<Seq<char>>) -> MatchView
        decreases dir, dir.children.len() + 1,
    {
        self.with_files(dir.children, queries, dir.children.len() as int).with_dirs(
            dir,
            queries,
            0,
        )
    }
}

/// The files in `dir` and below it number at least one.
pub open spec fn holds_file(dir: DirView) -> bool
    decreases dir,
{
    exists|i: int|
        0 <= i < dir.children.len() && match #[trigger] dir.children[i] {
            NodeView::File(_) => true,
            NodeView::Dir(child) => holds_file(child),
        }
}

/// The child is a directory called `name`.
pub open spec fn is_dir_named(node: NodeView, name: Seq<char>) -> bool {
    node matches NodeView::Dir(d) && d.name == name
}

/// The child is a file called `name`.
pub open spec fn is_file_named(node: NodeView, name: Seq<char>) -> bool {
    node matches NodeView::File(f) && f.name == name
}

/// The position, from `start` on, of the first directory called `name`.
pub open spec fn first_dir_from(nodes: Seq<NodeView>, name: Seq<char>, start: int) -> Option<int>
    decreases nodes.len() - start,
{
    if start < 0 || start >= nodes.len() {
        None
    } else if is_dir_named(nodes[start], name) {
        Some(start)
    } else {
        first_dir_from(nodes, name, start + 1)
    }
}

/// The position, from `start` on, of the first file called `name`.
pub open spec fn first_file_from(nodes: Seq<NodeView>, name: Seq<char>, start: int) -> Option<int>
    decreases nodes.len() - start,
{
    if start < 0 || start >= nodes.len() {
        None
    } else if is_file_named(nodes[start], name) {
        Some(start)
    } else {
        first_file_from(nodes, name, start + 1)
    }
}

impl DirView {
    /// The two directories have the same name, time of creation and children.
    pub open spec fn same_as(self, other: DirView) -> bool {
        &&& self.name == other.name
        &&& self.creation_time == other.creation_time
        &&& self.children =~= other.children
    }

    /// The position of the first child directory called `name`.
    pub open spec fn first_dir(self, name: Seq<char>) -> Option<int> {
        first_dir_from(self.children, name, 0)
    }

    /// The position of the first child file called `name`.
    pub open spec fn first_file(self, name: Seq<char>) -> Option<int> {
        first_file_from(self.children, name, 0)
    }

    /// The positions to follow, child by child, to go down through the
    /// directories that `names` names one after the other; at each step the
    /// first directory of that name is taken.
    pub open spec fn resolve(self, names: Seq<Seq<char>>) -> Option<Seq<int>>
        decreases names.len(),
    {
        if names.len() == 0 {
            Some(Seq::empty())
        } else {
            match self.first_dir(names[0]) {
                Some(i) => match self.children[i] {
                    NodeView::Dir(child) => match child.resolve(names.drop_first()) {
                        Some(rest) => Some(seq![i] + rest),
                        None => None,
                    },
                    NodeView::File(_) => None,
                },
                None => None,
            }
        }
    }

    /// The directory reached by following `path`, child by child.
    pub open spec fn at(self, path: Seq<int>) -> DirView
        decreases path.len(),
    {
        if path.len() == 0 {
            self
        } else {
            match self.children[path[0]] {
                NodeView::Dir(child) => child.at(path.drop_first()),
                NodeView::File(_) => self,
            }
        }
    }

    /// The directory with the one reached by `path` replaced by `new`.
    pub open spec fn put(self, path: Seq<int>, new: DirView) -> DirView
        decreases path.len(),
    {
        if path.len() == 0 {
            new
        } else {
            match self.children[path[0]] {
                NodeView::Dir(child) => self.with_child(
                    path[0],
                    NodeView::Dir(child.put(path.drop_first(), new)),
                ),
                NodeView::File(_) => self,
            }
        }
    }

    /// The directory with the child at position `i` replaced by `child`.
    pub open spec fn with_child(self, i: int, child: NodeView) -> DirView {
        DirView { children: self.children.update(i, child), ..self }
    }

    /// The directory with `child` added as its last child.
    pub open spec fn with_new(self, child: NodeView) -> DirView {
        DirView { children: self.children.push(child), ..self }
    }

    /// The directory without the child at position `i`, whose place the
    /// last child takes.
    pub open spec fn without(self, i: int) -> DirView {
        DirView { children: self.children.update(i, self.children.last()).drop_last(), ..self }
    }
}

/// Directories with the same name, time of creation and children are equal.
pub broadcast proof fn lemma_same(a: DirView, b: DirView)
    requires
        #[trigger] a.same_as(b),
    ensures
        a == b,
{
}

/// Putting back the directory that a path reaches changes nothing.
pub proof fn lemma_put_back(dir: DirView, names: Seq<Seq<char>>)
    ensures
        dir.resolve(names) matches Some(path) ==> dir.put(path, dir.at(path)) == dir,
    decreases names.len(),
{
    if names.len() > 0 {
        lemma_first_dir(dir.children, names[0], 0);
        if let Some(i) = dir.first_dir(names[0]) {
            if let NodeView::Dir(child) = dir.children[i] {
                lemma_put_back(child, names.drop_first());
                if let Some(rest) = child.resolve(names.drop_first()) {
                    let path = seq![i] + rest;
                    assert(path[0] == i);
                    assert(path.drop_first() =~= rest);
                    assert(dir.children.update(i, dir.children[i]) =~= dir.children);
                }
            }
        }
    }
}

/// A position that `first_dir_from` gives holds a directory of that name.
pub proof fn lemma_first_dir(nodes: Seq<NodeView>, name: Seq<char>, start: int)
    requires
        0 <= start,
    ensures
        match first_dir_from(nodes, name, start) {
            Some(i) => start <= i < nodes.len() && is_dir_named(nodes[i], name),
            None => forall|k: int| start <= k < nodes.len() ==> !is_dir_named(nodes[k], name),
        },
    decreases nodes.len() - start,
{
    if start < nodes.len() && !is_dir_named(nodes[start], name) {
        lemma_first_dir(nodes, name, start + 1);
    }
}

/// A position that `first_file_from` gives holds a file of that name.
pub proof fn lemma_first_file(nodes: Seq<NodeView>, name: Seq<char>, start: int)
    requires
        0 <= start,
    ensures
        match first_file_from(nodes, name, start) {
            Some(i) => start <= i < nodes.len() && is_file_named(nodes[i], name),
            None => forall|k: int| start <= k < nodes.len() ==> !is_file_named(nodes[k], name),
        },
    decreases nodes.len() - start,
{
    if start < nodes.len() && !is_file_named(nodes[start], name) {
        lemma_first_file(nodes, name, start + 1);
    }
}

} // verus!
