//! Reading package manifests and deciding how to treat directory entries.
use crate::filtering::{dep_views, DepType, Dependency, DependencyView, Package, PackageView};
use vstd::prelude::*;

verus! {

/// A directory holding one of these files is skipped, with all below it.
pub const COLCON_IGNORE: &'static str = "COLCON_IGNORE";

pub const CATKIN_IGNORE: &'static str = "CATKIN_IGNORE";

pub const AMENT_IGNORE: &'static str = "AMENT_IGNORE";

/// The manifest that makes a directory a package.
pub const MANIFEST_FILE: &'static str = "package.xml";

/// How many bytes of a manifest are read at most.
pub const MANIFEST_BYTE_CAP: u64 = 1048576;

/// One event of an XML document, reduced to what a manifest reader needs:
/// element starts and ends by local name, text, anything else, or an error.
#[derive(Clone, Debug)]
pub enum XmlItem {
    Open(String),
    Close(String),
    Text(String),
    Other,
    Malformed,
}

/// The events that the XML reader yields for a document.
pub uninterp spec fn xml_items_of(doc: Seq<u8>) -> Seq<XmlItem>;

/// Relies on `xml::reader::EventReader` and its event iterator: the events it
/// yields for a document depend on the document's bytes alone.
#[verifier::external_body]
fn read_xml_items(doc: &[u8]) -> (r: Vec<XmlItem>)
    ensures
        r@ == xml_items_of(doc@),
{
    let mut items = Vec::new();
    for e in xml::reader::EventReader::new(doc) {
        items.push(match e {
            Ok(xml::reader::XmlEvent::StartElement { name, .. }) => XmlItem::Open(name.local_name),
            Ok(xml::reader::XmlEvent::EndElement { name }) => XmlItem::Close(name.local_name),
            Ok(xml::reader::XmlEvent::Characters(s)) => XmlItem::Text(s),
            Ok(_) => XmlItem::Other,
            Err(_) => XmlItem::Malformed,
        });
    }
    items
}

/// Why a manifest was refused.
#[derive(PartialEq, Eq, Structural, Clone, Copy, Debug)]
pub enum ParseError {
    /// The root element is not `package`.
    NotPackage,
    /// An element stands inside `name` or a dependency element.
    NestedElement,
    /// A closing tag does not fit the element that the reader is in.
    UnmatchedClose,
    /// There is no `name` element.
    MissingName,
    /// The document is not well-formed XML.
    Malformed,
}

/// The element at depth one whose text the reader takes.
#[derive(PartialEq, Eq, Structural, Clone, Copy, Debug)]
pub enum Pending {
    Name,
    Depend,
    BuildDepend,
    TestDepend,
    ExecDepend,
    Other,
}

pub open spec fn tag_of(name: Seq<char>) -> Pending {
    if name == "name"@ {
        Pending::Name
    } else if name == "depend"@ {
        Pending::Depend
    } else if name == "build_depend"@ {
        Pending::BuildDepend
    } else if name == "test_depend"@ {
        Pending::TestDepend
    } else if name == "exec_depend"@ {
        Pending::ExecDepend
    } else {
        Pending::Other
    }
}

fn same_text(a: &String, b: &str) -> (r: bool)
    ensures
        r == (a@ == b@),
{
    *a == b.to_owned()
}

fn tag_from_name(name: &String) -> (r: Pending)
    ensures
        r == tag_of(name@),
{
    if same_text(name, "name") {
        Pending::Name
    } else if same_text(name, "depend") {
        Pending::Depend
    } else if same_text(name, "build_depend") {
        Pending::BuildDepend
    } else if same_text(name, "test_depend") {
        Pending::TestDepend
    } else if same_text(name, "exec_depend") {
        Pending::ExecDepend
    } else {
        Pending::Other
    }
}

/// Where the reader stands after a prefix of the events.
pub struct ReadState {
    pub depth: nat,
    pub pending: Pending,
    pub name: Option<Seq<char>>,
    pub deps: Seq<DependencyView>,
}

pub open spec fn start_state() -> ReadState {
    ReadState { depth: 0, pending: Pending::Other, name: None, deps: Seq::empty() }
}

/// The type given to the text of a dependency element.
pub open spec fn pending_type(p: Pending) -> DepType {
    match p {
        Pending::BuildDepend => DepType::Build,
        Pending::TestDepend => DepType::Test,
        Pending::ExecDepend => DepType::Exec,
        _ => DepType::All,
    }
}

/// One event read in state `s`. Text is taken while the reader is inside
/// `name` or a dependency element at depth one; leaving that element ends it.
/// Elements may nest only inside depth-one elements that are not recognized,
/// and the closing tag of a depth-one element must fit it.
pub open spec fn step(s: ReadState, item: XmlItem) -> Result<ReadState, ParseError> {
    match item {
        XmlItem::Open(n) => {
            if s.depth == 0 && n@ != "package"@ {
                Err(ParseError::NotPackage)
            } else {
                let pending = if s.depth == 1 {
                    tag_of(n@)
                } else {
                    s.pending
                };
                if s.depth > 1 && pending != Pending::Other {
                    Err(ParseError::NestedElement)
                } else {
                    Ok(ReadState { depth: s.depth + 1, pending, ..s })
                }
            }
        },
        XmlItem::Text(t) => Ok(
            match s.pending {
                Pending::Name => ReadState { name: Some(t@), ..s },
                Pending::Other => s,
                _ => ReadState {
                    deps: s.deps.push(DependencyView { name: t@, dep_type: pending_type(s.pending) }),
                    ..s
                },
            },
        ),
        XmlItem::Close(n) => {
            if s.depth == 0 || (s.depth == 2 && tag_of(n@) != s.pending) {
                Err(ParseError::UnmatchedClose)
            } else {
                let pending = if s.depth == 2 {
                    Pending::Other
                } else {
                    s.pending
                };
                Ok(ReadState { depth: (s.depth - 1) as nat, pending, ..s })
            }
        },
        XmlItem::Other => Ok(s),
        XmlItem::Malformed => Err(ParseError::Malformed),
    }
}

/// The state after reading `items` in order from state `s`, or the first error.
pub open spec fn run_from(s: ReadState, items: Seq<XmlItem>) -> Result<ReadState, ParseError>
    decreases items.len(),
{
    if items.len() == 0 {
        Ok(s)
    } else {
        match run_from(s, items.drop_last()) {
            Err(e) => Err(e),
            Ok(t) => step(t, items.last()),
        }
    }
}

/// The state after reading `items` in order, or the first error.
pub open spec fn run(items: Seq<XmlItem>) -> Result<ReadState, ParseError> {
    run_from(start_state(), items)
}

/// The package that the events of a manifest at `path` describe.
pub open spec fn manifest_of(path: Seq<char>, items: Seq<XmlItem>) -> Result<PackageView, ParseError> {
    match run(items) {
        Err(e) => Err(e),
        Ok(s) => match s.name {
            None => Err(ParseError::MissingName),
            Some(n) => Ok(PackageView { name: n, path, deps: s.deps }),
        },
    }
}

pub open spec fn name_view(o: Option<String>) -> Option<Seq<char>> {
    match o {
        Some(s) => Some(s@),
        None => None,
    }
}

/// Once reading has failed, later events change nothing.
proof fn lemma_failure_sticks(items: Seq<XmlItem>, k: int)
    requires
        0 <= k <= items.len(),
        run(items.take(k)) is Err,
    ensures
        run(items) == run(items.take(k)),
    decreases items.len() - k,
{
    if k < items.len() {
        assert(items.take(k + 1).drop_last() =~= items.take(k));
        lemma_failure_sticks(items, k + 1);
    } else {
        assert(items.take(k) =~= items);
    }
}

/// Reading `a` and then `b` is reading `a + b`.
proof fn lemma_run_concat(s: ReadState, a: Seq<XmlItem>, b: Seq<XmlItem>)
    ensures
        run_from(s, a + b) == match run_from(s, a) {
            Err(e) => Err(e),
            Ok(t) => run_from(t, b),
        },
    decreases b.len(),
{
    if b.len() == 0 {
        assert(a + b =~= a);
    } else {
        assert((a + b).drop_last() =~= a + b.drop_last());
        assert((a + b).last() == b.last());
        lemma_run_concat(s, a, b.drop_last());
    }
}

/// Opening tags minus closing tags.
pub open spec fn open_balance(items: Seq<XmlItem>) -> int
    decreases items.len(),
{
    if items.len() == 0 {
        0
    } else {
        open_balance(items.drop_last()) + match items.last() {
            XmlItem::Open(_) => 1int,
            XmlItem::Close(_) => -1int,
            _ => 0int,
        }
    }
}

/// The content of a well-formed element: every closing tag closes an element
/// opened inside it, all are closed, and nothing is malformed.
pub open spec fn is_balanced(body: Seq<XmlItem>) -> bool {
    &&& open_balance(body) == 0
    &&& forall|k: int| 0 <= k <= body.len() ==> open_balance(#[trigger] body.take(k)) >= 0
    &&& forall|i: int| 0 <= i < body.len() ==> !(#[trigger] body[i] is Malformed)
}

proof fn lemma_inside_ignored(t: ReadState, body: Seq<XmlItem>, k: int)
    requires
        t.depth >= 2,
        t.pending == Pending::Other,
        is_balanced(body),
        0 <= k <= body.len(),
    ensures
        run_from(t, body.take(k)) == Ok::<ReadState, ParseError>(
            ReadState { depth: (t.depth + open_balance(body.take(k))) as nat, ..t },
        ),
    decreases k,
{
    if k == 0 {
        assert(body.take(0) =~= Seq::<XmlItem>::empty());
        assert(ReadState { depth: (t.depth + 0) as nat, ..t } == t);
    } else {
        lemma_inside_ignored(t, body, k - 1);
        assert(body.take(k).drop_last() =~= body.take(k - 1));
        assert(body.take(k).last() == body[k - 1]);
        assert(open_balance(body.take(k)) >= 0);
        assert(!(body[k - 1] is Malformed));
    }
}

/// At depth one or less no element's text is being taken.
proof fn lemma_shallow_takes_nothing(items: Seq<XmlItem>)
    requires
        run(items) is Ok,
        run(items)->Ok_0.depth <= 1,
    ensures
        run(items)->Ok_0.pending == Pending::Other,
    decreases items.len(),
{
    if items.len() > 0 {
        let prev = items.drop_last();
        assert(run(prev) is Ok);
        let s = run(prev)->Ok_0;
        if s.depth <= 1 {
            lemma_shallow_takes_nothing(prev);
        }
    }
}

/// A depth-one element that is not recognized, with everything inside it,
/// leaves the package read from a manifest unchanged.
pub proof fn lemma_unrecognized_element_ignored(
    path: Seq<char>,
    prefix: Seq<XmlItem>,
    n: String,
    body: Seq<XmlItem>,
    suffix: Seq<XmlItem>,
)
    requires
        run(prefix) is Ok,
        run(prefix)->Ok_0.depth == 1,
        tag_of(n@) == Pending::Other,
        is_balanced(body),
    ensures
        manifest_of(path, prefix + (seq![XmlItem::Open(n)] + body + seq![XmlItem::Close(n)]) + suffix)
            == manifest_of(path, prefix + suffix),
{
    let s = run(prefix)->Ok_0;
    lemma_shallow_takes_nothing(prefix);
    let open = seq![XmlItem::Open(n)];
    let close = seq![XmlItem::Close(n)];
    let element = open + body + close;
    let t = ReadState { depth: 2, ..s };
    assert(open.drop_last() =~= Seq::<XmlItem>::empty());
    assert(run_from(s, open.drop_last()) == Ok::<ReadState, ParseError>(s));
    assert(open.last() == XmlItem::Open(n));
    assert(step(s, XmlItem::Open(n)) == Ok::<ReadState, ParseError>(t));
    assert(run_from(s, open) == Ok::<ReadState, ParseError>(t));
    lemma_inside_ignored(t, body, body.len() as int);
    assert(body.take(body.len() as int) =~= body);
    lemma_run_concat(s, open, body);
    assert(run_from(s, open + body) == Ok::<ReadState, ParseError>(t));
    assert(close.drop_last() =~= Seq::<XmlItem>::empty());
    assert(run_from(t, close.drop_last()) == Ok::<ReadState, ParseError>(t));
    assert(close.last() == XmlItem::Close(n));
    assert(step(t, XmlItem::Close(n)) == Ok::<ReadState, ParseError>(s));
    assert(run_from(t, close) == Ok::<ReadState, ParseError>(s));
    lemma_run_concat(s, open + body, close);
    lemma_run_concat(start_state(), prefix, element);
    lemma_run_concat(start_state(), prefix + element, suffix);
    lemma_run_concat(start_state(), prefix, suffix);
}

/// Reads the package that the events of a manifest at `path` describe.
pub fn parse_items(path: &String, items: &Vec<XmlItem>) -> (r: Result<Package, ParseError>)
    ensures
        match r {
            Ok(p) => manifest_of(path@, items@) == Ok::<PackageView, ParseError>(p@),
            Err(e) => manifest_of(path@, items@) == Err::<PackageView, ParseError>(e),
        },
{
    let mut depth: usize = 0;
    let mut pending = Pending::Other;
    let mut name: Option<String> = None;
    let mut deps: Vec<Dependency> = Vec::new();
    let mut i: usize = 0;
    proof {
        assert(items@.take(0) =~= Seq::<XmlItem>::empty());
        assert(dep_views(deps@) =~= Seq::<DependencyView>::empty());
    }
    while i < items.len()
        invariant
            0 <= i <= items.len(),
            depth <= i,
            run(items@.take(i as int)) == Ok::<ReadState, ParseError>(
                ReadState { depth: depth as nat, pending, name: name_view(name), deps: dep_views(deps@) },
            ),
        decreases items.len() - i,
    {
        proof {
            assert(items@.take(i + 1).drop_last() =~= items@.take(i as int));
        }
        match &items[i] {
            XmlItem::Open(n) => {
                if depth == 0 && !same_text(n, "package") {
                    proof {
                        lemma_failure_sticks(items@, i + 1);
                    }
                    return Err(ParseError::NotPackage);
                }
                if depth == 1 {
                    pending = tag_from_name(n);
                }
                if depth > 1 && pending != Pending::Other {
                    proof {
                        lemma_failure_sticks(items@, i + 1);
                    }
                    return Err(ParseError::NestedElement);
                }
                depth = depth + 1;
            },
            XmlItem::Text(t) => {
                match pending {
                    Pending::Name => {
                        name = Some(t.clone());
                    },
                    Pending::Depend => {
                        deps.push(Dependency { name: t.clone(), dep_type: DepType::All });
                    },
                    Pending::BuildDepend => {
                        deps.push(Dependency { name: t.clone(), dep_type: DepType::Build });
                    },
                    Pending::TestDepend => {
                        deps.push(Dependency { name: t.clone(), dep_type: DepType::Test });
                    },
                    Pending::ExecDepend => {
                        deps.push(Dependency { name: t.clone(), dep_type: DepType::Exec });
                    },
                    Pending::Other => {},
                }
                proof {
                    assert(dep_views(deps@) =~= run(items@.take(i + 1))->Ok_0.deps);
                }
            },
            XmlItem::Close(n) => {
                if depth == 0 || (depth == 2 && tag_from_name(n) != pending) {
                    proof {
                        lemma_failure_sticks(items@, i + 1);
                    }
                    return Err(ParseError::UnmatchedClose);
                }
                if depth == 2 {
                    pending = Pending::Other;
                }
                depth = depth - 1;
            },
            XmlItem::Other => {},
            XmlItem::Malformed => {
                proof {
                    lemma_failure_sticks(items@, i + 1);
                }
                return Err(ParseError::Malformed);
            },
        }
        i = i + 1;
    }
    proof {
        assert(items@.take(items.len() as int) =~= items@);
    }
    match name {
        Some(n) => Ok(Package { name: n, path: path.clone(), deps }),
        None => Err(ParseError::MissingName),
    }
}

/// Reads the manifest `doc` of the package at `path`.
pub fn parse_contents(path: &String, doc: &[u8]) -> (r: Result<Package, ParseError>)
    ensures
        match r {
            Ok(p) => manifest_of(path@, xml_items_of(doc@)) == Ok::<PackageView, ParseError>(p@),
            Err(e) => manifest_of(path@, xml_items_of(doc@)) == Err::<PackageView, ParseError>(e),
        },
{
    let items = read_xml_items(doc);
    parse_items(path, &items)
}

/// A manifest read by category: the name and the dependency names of each kind.
#[derive(Clone, Debug)]
pub struct Manifest {
    pub name: String,
    pub depend: Vec<String>,
    pub build_depend: Vec<String>,
    pub exec_depend: Vec<String>,
    pub test_depend: Vec<String>,
}

/// A manifest together with the location of its package.
#[derive(Clone, Debug)]
pub struct Entry {
    pub pkg: Manifest,
    pub path: String,
}

/// Dependencies of type `t` on each of `names`, in order.
pub open spec fn tagged(names: Seq<String>, t: DepType) -> Seq<DependencyView> {
    names.map_values(|n: String| DependencyView { name: n@, dep_type: t })
}

fn push_tagged(deps: &mut Vec<Dependency>, names: &Vec<String>, t: DepType)
    ensures
        dep_views(final(deps)@) == dep_views(old(deps)@) + tagged(names@, t),
{
    let ghost start = deps@;
    let mut i: usize = 0;
    while i < names.len()
        invariant
            0 <= i <= names.len(),
            deps.len() == start.len() + i,
            forall|k: int| 0 <= k < start.len() ==> deps@[k] == start[k],
            forall|k: int| 0 <= k < i ==> (#[trigger] deps@[start.len() + k])@ == (DependencyView { name: names@[k]@, dep_type: t }),
        decreases names.len() - i,
    {
        deps.push(Dependency { name: names[i].clone(), dep_type: t });
        proof {
            assert(deps@[start.len() + i]@ == DependencyView { name: names@[i as int]@, dep_type: t });
        }
        i = i + 1;
    }
    proof {
        assert(dep_views(deps@) =~= dep_views(start) + tagged(names@, t)) by {
            assert forall|k: int| 0 <= k < deps.len() implies dep_views(deps@)[k] == (dep_views(start) + tagged(names@, t))[k] by {
                if k >= start.len() {
                    assert(deps@[start.len() + (k - start.len())]@ == DependencyView { name: names@[k - start.len()]@, dep_type: t });
                }
            }
        }
    }
}

impl Package {
    /// The package of an entry, with its dependencies by category: first the
    /// unconditional ones, then build, exec and test dependencies.
    pub fn from_entry(entry: Entry) -> (r: Package)
        ensures
            r@ == (PackageView {
                name: entry.pkg.name@,
                path: entry.path@,
                deps: tagged(entry.pkg.depend@, DepType::All) + tagged(entry.pkg.build_depend@, DepType::Build)
                    + tagged(entry.pkg.exec_depend@, DepType::Exec) + tagged(entry.pkg.test_depend@, DepType::Test),
            }),
    {
        let mut deps: Vec<Dependency> = Vec::new();
        proof {
            assert(dep_views(deps@) =~= Seq::<DependencyView>::empty());
        }
        push_tagged(&mut deps, &entry.pkg.depend, DepType::All);
        push_tagged(&mut deps, &entry.pkg.build_depend, DepType::Build);
        push_tagged(&mut deps, &entry.pkg.exec_depend, DepType::Exec);
        push_tagged(&mut deps, &entry.pkg.test_depend, DepType::Test);
        proof {
            assert(Seq::<DependencyView>::empty() + tagged(entry.pkg.depend@, DepType::All) =~= tagged(entry.pkg.depend@, DepType::All));
        }
        Package { name: entry.pkg.name, path: entry.path, deps }
    }
}

/// What a directory entry is, for the search for packages.
#[derive(PartialEq, Eq, Structural, Clone, Copy, Debug)]
pub enum EntryKind {
    /// Not a directory.
    IsFile,
    /// A hidden directory, or one that holds an ignore marker.
    Ignored,
    /// A directory to look into: a package if it holds a manifest.
    Searchable,
}

/// A name that starts with a dot.
pub open spec fn is_hidden(name: Seq<char>) -> bool {
    name.len() > 0 && name[0] == '.'
}

/// Whether the file name starts with a dot.
pub fn is_hidden_name(name: &str) -> (r: bool)
    ensures
        r == is_hidden(name@),
{
    name.unicode_len() > 0 && name.get_char(0) == '.'
}

/// Decides what a directory entry is from whether it is a directory, its
/// file name if it has one, and whether it holds one of the ignore markers.
pub fn classify_entry(is_dir: bool, file_name: Option<&str>, has_ignore_marker: bool) -> (r: EntryKind)
    ensures
        r == (if !is_dir {
            EntryKind::IsFile
        } else if (match file_name {
            Some(n) => is_hidden(n@),
            None => false,
        }) || has_ignore_marker {
            EntryKind::Ignored
        } else {
            EntryKind::Searchable
        }),
{
    if !is_dir {
        return EntryKind::IsFile;
    }
    let hidden = match file_name {
        Some(n) => is_hidden_name(n),
        None => false,
    };
    if hidden || has_ignore_marker {
        EntryKind::Ignored
    } else {
        EntryKind::Searchable
    }
}

} // verus!
