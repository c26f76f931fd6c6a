//! Building an epub: which files go into the archive, in what order, and how.

use crate::text;
use vstd::prelude::*;

verus! {

/// How the data of an entry is kept in an archive.
#[derive(Clone, Copy, Debug, PartialEq, Eq, Structural)]
pub enum Method {
    /// As it is.
    Stored,
    /// Compressed.
    Deflated,
}

/// One entry of an archive.
#[verifier::ext_equal]
pub struct EntryView {
    pub name: Seq<char>,
    pub method: Method,
    pub data: Seq<u8>,
}

/// A file to be put into an archive.
#[derive(Debug)]
pub struct SourceFile {
    /// The parts of its path below the source folder.
    pub path: Vec<Vec<u8>>,
    /// That path as a text.
    pub name: String,
    /// What it holds, or why it cannot be read.
    pub content: Result<Vec<u8>, String>,
}

/// What reading a file gave.
pub open spec fn read_view(r: Result<Vec<u8>, String>) -> Result<Seq<u8>, Seq<char>> {
    match r {
        Ok(data) => Ok(data@),
        Err(e) => Err(e@),
    }
}

/// The parts of a path.
pub open spec fn path_view(path: Seq<Vec<u8>>) -> Seq<Seq<u8>> {
    Seq::new(path.len(), |i: int| path[i]@)
}

/// What a [`SourceFile`] holds.
#[verifier::ext_equal]
pub struct SourceView {
    pub path: Seq<Seq<u8>>,
    pub name: Seq<char>,
    pub content: Result<Seq<u8>, Seq<char>>,
}

impl View for SourceFile {
    type V = SourceView;

    open spec fn view(&self) -> SourceView {
        SourceView {
            path: path_view(self.path@),
            name: self.name@,
            content: read_view(self.content),
        }
    }
}

/// What a list of files holds.
pub open spec fn source_views(v: Seq<SourceFile>) -> Seq<SourceView> {
    Seq::new(v.len(), |i: int| v[i]@)
}

/// `a` comes before `b` byte by byte, and a text before every longer one that begins
/// with it.
pub open spec fn bytes_before(a: Seq<u8>, b: Seq<u8>) -> bool
    decreases a.len(),
{
    &&& b.len() > 0
    &&& a.len() == 0 || a[0] < b[0] || (a[0] == b[0] && bytes_before(a.drop_first(), b.drop_first()))
}

/// `a` comes before `b` part by part, and a path before every longer one that begins
/// with it.
pub open spec fn path_before(a: Seq<Seq<u8>>, b: Seq<Seq<u8>>) -> bool
    decreases a.len(),
{
    &&& b.len() > 0
    &&& a.len() == 0 || bytes_before(a[0], b[0]) || (a[0] == b[0] && path_before(
        a.drop_first(),
        b.drop_first(),
    ))
}

/// Nothing comes before itself.
proof fn lemma_bytes_irreflexive(a: Seq<u8>)
    ensures
        !bytes_before(a, a),
    decreases a.len(),
{
    if a.len() > 0 {
        lemma_bytes_irreflexive(a.drop_first());
    }
}

proof fn lemma_bytes_transitive(a: Seq<u8>, b: Seq<u8>, c: Seq<u8>)
    requires
        bytes_before(a, b),
        bytes_before(b, c),
    ensures
        bytes_before(a, c),
    decreases a.len(),
{
    if a.len() > 0 && a[0] == b[0] && b[0] == c[0] {
        lemma_bytes_transitive(a.drop_first(), b.drop_first(), c.drop_first());
    }
}

proof fn lemma_bytes_total(a: Seq<u8>, b: Seq<u8>)
    ensures
        bytes_before(a, b) || bytes_before(b, a) || a == b,
    decreases a.len(),
{
    if a.len() == 0 {
        if b.len() == 0 {
            assert(a =~= b);
        }
    } else if b.len() > 0 && a[0] == b[0] {
        lemma_bytes_total(a.drop_first(), b.drop_first());
        if a.drop_first() == b.drop_first() {
            assert(a =~= seq![a[0]] + a.drop_first());
            assert(b =~= seq![b[0]] + b.drop_first());
        }
    }
}

/// No path comes before itself.
proof fn lemma_path_irreflexive(a: Seq<Seq<u8>>)
    ensures
        !path_before(a, a),
    decreases a.len(),
{
    if a.len() > 0 {
        lemma_bytes_irreflexive(a[0]);
        lemma_path_irreflexive(a.drop_first());
    }
}

proof fn lemma_path_transitive(a: Seq<Seq<u8>>, b: Seq<Seq<u8>>, c: Seq<Seq<u8>>)
    requires
        path_before(a, b),
        path_before(b, c),
    ensures
        path_before(a, c),
    decreases a.len(),
{
    if a.len() > 0 {
        if bytes_before(a[0], b[0]) && bytes_before(b[0], c[0]) {
            lemma_bytes_transitive(a[0], b[0], c[0]);
        } else if a[0] == b[0] && b[0] == c[0] && !bytes_before(a[0], b[0]) && !bytes_before(
            b[0],
            c[0],
        ) {
            lemma_path_transitive(a.drop_first(), b.drop_first(), c.drop_first());
        }
    }
}

proof fn lemma_path_total(a: Seq<Seq<u8>>, b: Seq<Seq<u8>>)
    ensures
        path_before(a, b) || path_before(b, a) || a == b,
    decreases a.len(),
{
    if a.len() == 0 {
        if b.len() == 0 {
            assert(a =~= b);
        }
    } else if b.len() > 0 {
        lemma_bytes_total(a[0], b[0]);
        if a[0] == b[0] {
            lemma_path_total(a.drop_first(), b.drop_first());
            if a.drop_first() == b.drop_first() {
                assert(a =~= seq![a[0]] + a.drop_first());
                assert(b =~= seq![b[0]] + b.drop_first());
            }
        }
    }
}

/// Bytes that begin alike are compared by what follows.
proof fn lemma_bytes_step(a: Seq<u8>, b: Seq<u8>, i: int)
    requires
        0 <= i < a.len(),
        i < b.len(),
        a[i] == b[i],
    ensures
        bytes_before(a.skip(i), b.skip(i)) == bytes_before(a.skip(i + 1), b.skip(i + 1)),
        a.skip(i) == b.skip(i) <==> a.skip(i + 1) == b.skip(i + 1),
{
    assert(a.skip(i).drop_first() =~= a.skip(i + 1));
    assert(b.skip(i).drop_first() =~= b.skip(i + 1));
    assert(a.skip(i) =~= seq![a[i]] + a.skip(i + 1));
    assert(b.skip(i) =~= seq![b[i]] + b.skip(i + 1));
}

/// Paths that begin alike are compared by what follows.
proof fn lemma_path_step(a: Seq<Seq<u8>>, b: Seq<Seq<u8>>, i: int)
    requires
        0 <= i < a.len(),
        i < b.len(),
        a[i] == b[i],
    ensures
        path_before(a.skip(i), b.skip(i)) == path_before(a.skip(i + 1), b.skip(i + 1)),
{
    lemma_bytes_irreflexive(a[i]);
    assert(a.skip(i).drop_first() =~= a.skip(i + 1));
    assert(b.skip(i).drop_first() =~= b.skip(i + 1));
}

/// How two byte texts lie to each other.
#[derive(Clone, Copy, Debug, PartialEq, Eq, Structural)]
enum Place {
    Before,
    Same,
    After,
}

/// How `a` lies to `b`.
fn place_of(a: &[u8], b: &[u8]) -> (r: Place)
    ensures
        r == Place::Before <==> bytes_before(a@, b@),
        r == Place::Same <==> a@ == b@,
{
    let mut i: usize = 0;
    assert(a@.skip(0) =~= a@);
    assert(b@.skip(0) =~= b@);
    while i < a.len() && i < b.len()
        invariant
            i <= a@.len(),
            i <= b@.len(),
            bytes_before(a@, b@) == bytes_before(a@.skip(i as int), b@.skip(i as int)),
            a@ == b@ <==> a@.skip(i as int) == b@.skip(i as int),
        decreases a@.len() - i,
    {
        if a[i] != b[i] {
            assert(a@.skip(i as int)[0] == a@[i as int]);
            assert(b@.skip(i as int)[0] == b@[i as int]);
            return if a[i] < b[i] {
                Place::Before
            } else {
                Place::After
            };
        }
        proof {
            lemma_bytes_step(a@, b@, i as int);
        }
        i += 1;
    }
    if i < b.len() {
        assert(a@.skip(i as int).len() != b@.skip(i as int).len());
        Place::Before
    } else if i < a.len() {
        assert(a@.skip(i as int).len() != b@.skip(i as int).len());
        Place::After
    } else {
        assert(a@.skip(i as int) =~= b@.skip(i as int));
        proof {
            lemma_bytes_irreflexive(a@);
        }
        Place::Same
    }
}

/// Whether path `a` comes before path `b`.
pub fn is_before(a: &Vec<Vec<u8>>, b: &Vec<Vec<u8>>) -> (r: bool)
    ensures
        r == path_before(path_view(a@), path_view(b@)),
{
    let ghost x = path_view(a@);
    let ghost y = path_view(b@);
    let mut i: usize = 0;
    assert(x.skip(0) =~= x);
    assert(y.skip(0) =~= y);
    while i < a.len() && i < b.len()
        invariant
            i <= a@.len(),
            i <= b@.len(),
            x == path_view(a@),
            y == path_view(b@),
            path_before(x, y) == path_before(x.skip(i as int), y.skip(i as int)),
        decreases a@.len() - i,
    {
        let place = place_of(a[i].as_slice(), b[i].as_slice());
        assert(x.skip(i as int)[0] == a@[i as int]@);
        assert(y.skip(i as int)[0] == b@[i as int]@);
        if place != Place::Same {
            return place == Place::Before;
        }
        proof {
            lemma_path_step(x, y, i as int);
        }
        i += 1;
    }
    i < b.len()
}

/// The path of the file that says that an archive is an epub.
pub open spec fn is_mimetype(path: Seq<Seq<u8>>) -> bool {
    path.len() == 1 && path[0] == vstd::utf8::encode_utf8("mimetype"@)
}

/// File `i` is put into an archive before file `j`: by path, and for one path by
/// their places in the list.
pub open spec fn sorts_before(files: Seq<SourceView>, i: int, j: int) -> bool {
    path_before(files[i].path, files[j].path) || (files[i].path == files[j].path && i < j)
}

/// `order` lists the files other than `mimetype`, sorted.
pub open spec fn is_file_order(files: Seq<SourceView>, order: Seq<int>) -> bool {
    &&& forall|k: int|
        0 <= k < order.len() ==> 0 <= #[trigger] order[k] < files.len() && !is_mimetype(
            files[order[k]].path,
        )
    &&& forall|i: int|
        0 <= i < files.len() && !is_mimetype((#[trigger] files[i]).path) ==> order.contains(i)
    &&& forall|a: int, b: int|
        0 <= a < b < order.len() ==> sorts_before(files, #[trigger] order[a], #[trigger] order[b])
}

/// Numbers of a list as mathematical integers.
pub open spec fn numbers(v: Seq<usize>) -> Seq<int> {
    Seq::new(v.len(), |i: int| v[i] as int)
}

/// Whether a path is that of the file `mimetype`.
fn names_mimetype(path: &Vec<Vec<u8>>) -> (r: bool)
    ensures
        r == is_mimetype(path_view(path@)),
{
    path.len() == 1 && place_of(path[0].as_slice(), "mimetype".as_bytes()) == Place::Same
}

/// Putting file `i` at place `p` of the order of the files before it.
proof fn lemma_insert_file(files: Seq<SourceView>, order: Seq<int>, i: int, p: int)
    requires
        0 <= i < files.len(),
        !is_mimetype(files[i].path),
        is_file_order(files.take(i), order),
        0 <= p <= order.len(),
        p > 0 ==> !path_before(files[i].path, files[order[p - 1]].path),
        forall|k: int| p <= k < order.len() ==> path_before(files[i].path, files[order[k]].path),
    ensures
        is_file_order(files.take(i + 1), order.insert(p, i)),
{
    let before = files.take(i);
    let now = files.take(i + 1);
    let r = order.insert(p, i);
    assert forall|k: int| 0 <= k < order.len() implies 0 <= #[trigger] order[k] < i
        && now[order[k]] == before[order[k]] && now[order[k]] == files[order[k]] by {}
    assert forall|k: int| 0 <= k < p implies sorts_before(now, #[trigger] order[k], i) by {
        let last = order[p - 1];
        lemma_path_total(files[last].path, files[i].path);
        if k < p - 1 {
            assert(sorts_before(before, order[k], last));
            if path_before(files[order[k]].path, files[last].path) && path_before(
                files[last].path,
                files[i].path,
            ) {
                lemma_path_transitive(files[order[k]].path, files[last].path, files[i].path);
            }
        }
    }
    assert forall|k: int| 0 <= k < r.len() implies 0 <= #[trigger] r[k] < now.len()
        && !is_mimetype(now[r[k]].path) by {
        if k < p {
            assert(r[k] == order[k]);
        } else if k > p {
            assert(r[k] == order[k - 1]);
        }
    }
    assert forall|j: int|
        0 <= j < now.len() && !is_mimetype((#[trigger] now[j]).path) implies r.contains(j) by {
        if j == i {
            assert(r[p] == i);
        } else {
            assert(before[j] == now[j]);
            let k = choose|k: int| 0 <= k < order.len() && order[k] == j;
            if k < p {
                assert(r[k] == j);
            } else {
                assert(r[k + 1] == j);
            }
        }
    }
    assert forall|a: int, b: int| 0 <= a < b < r.len() implies sorts_before(
        now,
        #[trigger] r[a],
        #[trigger] r[b],
    ) by {
        let x = if a < p {
            a
        } else {
            a - 1
        };
        let y = if b < p {
            b
        } else {
            b - 1
        };
        if a != p {
            assert(r[a] == order[x]);
        }
        if b != p {
            assert(r[b] == order[y]);
        }
        if a != p && b != p {
            assert(sorts_before(before, order[x], order[y]));
        }
    }
}

/// The order in which files other than `mimetype` are put into an archive.
pub fn file_order(files: &Vec<SourceFile>) -> (r: Vec<usize>)
    ensures
        is_file_order(source_views(files@), numbers(r@)),
{
    let ghost all = source_views(files@);
    let mut r: Vec<usize> = Vec::new();
    let mut i: usize = 0;
    while i < files.len()
        invariant
            i <= files@.len(),
            all == source_views(files@),
            is_file_order(all.take(i as int), numbers(r@)),
        decreases files@.len() - i,
    {
        let ghost order = numbers(r@);
        if names_mimetype(&files[i].path) {
            proof {
                assert(all.take(i + 1)[i as int] == all[i as int]);
                assert(forall|k: int|
                    0 <= k < i ==> #[trigger] all.take(i + 1)[k] == all.take(i as int)[k]);
                assert forall|a: int, b: int| 0 <= a < b < order.len() implies sorts_before(
                    all.take(i + 1),
                    #[trigger] order[a],
                    #[trigger] order[b],
                ) by {
                    assert(sorts_before(all.take(i as int), order[a], order[b]));
                }
            }
        } else {
            let mut p: usize = r.len();
            assert forall|k: int| 0 <= k < r@.len() implies (#[trigger] r@[k]) < i by {
                assert(order[k] == r@[k]);
            }
            while p > 0 && is_before(&files[i].path, &files[r[p - 1]].path)
                invariant
                    i < files@.len(),
                    p <= r@.len(),
                    all == source_views(files@),
                    order == numbers(r@),
                    is_file_order(all.take(i as int), order),
                    forall|k: int| 0 <= k < r@.len() ==> (#[trigger] r@[k]) < i,
                    forall|k: int|
                        p <= k < order.len() ==> path_before(
                            all[i as int].path,
                            all[#[trigger] order[k]].path,
                        ),
                decreases p,
            {
                p -= 1;
            }
            r.insert(p, i);
            proof {
                lemma_insert_file(all, order, i as int, p as int);
                assert(numbers(r@) =~= order.insert(p as int, i as int));
            }
        }
        i += 1;
    }
    assert(all.take(i as int) =~= all);
    r
}

/// An archive that is being written to memory: a [`zip::ZipWriter`], opaque here.
#[verifier::external_body]
pub struct ZipBuffer {
    writer: zip::ZipWriter<std::io::Cursor<Vec<u8>>>,
}

/// The entries of an archive, in the order in which they were started.
pub uninterp spec fn entries_of(w: ZipBuffer) -> Seq<EntryView>;

/// Why [`zip::ZipWriter::start_file`] refuses an entry, if it does.
pub uninterp spec fn zip_start_error(
    entries: Seq<EntryView>,
    name: Seq<char>,
    method: Method,
) -> Option<Seq<char>>;

/// Why writing data to the last entry of an archive fails, if it does.
pub uninterp spec fn zip_write_error(entries: Seq<EntryView>, data: Seq<u8>) -> Option<Seq<char>>;

/// The bytes of an archive with these entries, or why there are none: what
/// [`zip::ZipWriter::finish`] gives.
pub uninterp spec fn zip_file(entries: Seq<EntryView>) -> Result<Seq<u8>, Seq<char>>;

/// Some entry has the given name.
pub open spec fn has_entry(entries: Seq<EntryView>, name: Seq<char>) -> bool {
    exists|i: int| 0 <= i < entries.len() && #[trigger] entries[i].name == name
}

/// The most bytes that the name of an entry can have.
pub const MAX_NAME: usize = 65535;

/// Calls [`zip::ZipWriter::new`] on an empty buffer: an archive without entries.
#[verifier::external_body]
fn new_archive() -> (w: ZipBuffer)
    ensures
        entries_of(w) == Seq::<EntryView>::empty(),
{
    ZipBuffer { writer: zip::ZipWriter::new(std::io::Cursor::new(Vec::new())) }
}

/// Calls [`zip::ZipWriter::start_file`], which adds an entry without data. It refuses
/// a name that an entry has already; whether it refuses anything else, and the reason
/// given, depend on the entries so far and on the arguments alone. It panics on a
/// name of more than 65535 bytes.
#[verifier::external_body]
fn start_entry(w: ZipBuffer, name: &str, method: Method) -> (r: Result<ZipBuffer, String>)
    requires
        vstd::utf8::encode_utf8(name@).len() <= MAX_NAME,
    ensures
        match r {
            Ok(after) => {
                &&& zip_start_error(entries_of(w), name@, method) is None
                &&& !has_entry(entries_of(w), name@)
                &&& entries_of(after) == entries_of(w).push(
                    EntryView { name: name@, method, data: Seq::empty() },
                )
            },
            Err(e) => zip_start_error(entries_of(w), name@, method) == Some(e@),
        },
{
    let mut w = w;
    let compression = match method {
        Method::Stored => zip::CompressionMethod::Stored,
        Method::Deflated => zip::CompressionMethod::Deflated,
    };
    let options = zip::write::SimpleFileOptions::default().compression_method(compression);
    w.writer.start_file(name, options).map_err(|e| e.to_string())?;
    Ok(w)
}

/// The entries after data was written to the last of them.
pub open spec fn written(entries: Seq<EntryView>, data: Seq<u8>) -> Seq<EntryView> {
    entries.drop_last().push(EntryView { data, ..entries.last() })
}

/// Calls `write_all` of [`zip::ZipWriter`], which gives the last entry its data.
/// Whether it fails, and the reason given, depend on the entries and the data alone.
#[verifier::external_body]
fn write_data(w: ZipBuffer, data: &[u8]) -> (r: Result<ZipBuffer, String>)
    requires
        entries_of(w).len() > 0,
        entries_of(w).last().data.len() == 0,
    ensures
        match r {
            Ok(after) => {
                &&& zip_write_error(entries_of(w), data@) is None
                &&& entries_of(after) == written(entries_of(w), data@)
            },
            Err(e) => zip_write_error(entries_of(w), data@) == Some(e@),
        },
{
    let mut w = w;
    std::io::Write::write_all(&mut w.writer, data).map_err(|e| e.to_string())?;
    Ok(w)
}

/// Calls [`zip::ZipWriter::finish`], which gives the archive's bytes. Whether it
/// fails, the reason given and the bytes depend on the entries alone: without the
/// crate's feature `time` every entry bears the same date.
#[verifier::external_body]
fn finish_archive(w: ZipBuffer) -> (r: Result<Vec<u8>, String>)
    ensures
        read_view(r) == zip_file(entries_of(w)),
{
    w.writer.finish().map(|buffer| buffer.into_inner()).map_err(|e| e.to_string())
}

/// What is to be put into an archive: a name, how to keep the data, and the data or
/// why it cannot be read.
#[verifier::ext_equal]
pub struct ItemView {
    pub name: Seq<char>,
    pub method: Method,
    pub content: Result<Seq<u8>, Seq<char>>,
}

/// The name that a file has in an archive.
pub open spec fn entry_name(f: SourceView) -> Seq<char> {
    text::replaced(f.name, '\\', "/"@)
}

/// What is put into an epub: first `mimetype`, stored as it is, then the other files
/// in the given order, compressed.
pub open spec fn epub_items(
    mimetype: Result<Seq<u8>, Seq<char>>,
    files: Seq<SourceView>,
    order: Seq<int>,
) -> Seq<ItemView> {
    seq![ItemView { name: "mimetype"@, method: Method::Stored, content: mimetype }] + Seq::new(
        order.len(),
        |k: int|
            ItemView {
                name: entry_name(files[order[k]]),
                method: Method::Deflated,
                content: files[order[k]].content,
            },
    )
}

/// The entry that an item becomes.
pub open spec fn entry_of(item: ItemView) -> EntryView {
    EntryView { name: item.name, method: item.method, data: item.content->Ok_0 }
}

/// The entries that items become.
pub open spec fn entries_for(items: Seq<ItemView>) -> Seq<EntryView> {
    items.map_values(|item: ItemView| entry_of(item))
}

/// A message on an item: what was done, the item's name and the reason.
pub open spec fn complaint(act: Seq<char>, name: Seq<char>, reason: Seq<char>) -> Seq<char> {
    act + name + ": "@ + reason
}

/// Why an item cannot be put behind these entries, if it cannot.
pub open spec fn item_failure(entries: Seq<EntryView>, item: ItemView) -> Option<Seq<char>> {
    match zip_start_error(entries, item.name, item.method) {
        Some(e) => Some(complaint("zip "@, item.name, e)),
        None => match item.content {
            Err(e) => Some(complaint("read "@, item.name, e)),
            Ok(data) => match zip_write_error(
                entries.push(EntryView { name: item.name, method: item.method, data: Seq::empty() }),
                data,
            ) {
                Some(e) => Some(complaint("write "@, item.name, e)),
                None => None,
            },
        },
    }
}

/// Why the first of these items that cannot be put into an archive cannot.
pub open spec fn first_failure(items: Seq<ItemView>) -> Option<Seq<char>>
    decreases items.len(),
{
    if items.len() == 0 {
        None
    } else {
        match first_failure(items.drop_last()) {
            Some(m) => Some(m),
            None => item_failure(entries_for(items.drop_last()), items.last()),
        }
    }
}

/// The archive of these items, or why there is none.
pub open spec fn archive_of(items: Seq<ItemView>) -> Result<Seq<u8>, Seq<char>> {
    match first_failure(items) {
        Some(m) => Err(m),
        None => match zip_file(entries_for(items)) {
            Ok(bytes) => Ok(bytes),
            Err(e) => Err("zip finish: "@ + e),
        },
    }
}

/// All names are different.
pub open spec fn distinct_names(items: Seq<ItemView>) -> bool {
    forall|a: int, b: int|
        0 <= a < b < items.len() ==> #[trigger] items[a].name != #[trigger] items[b].name
}

/// A message on an item.
fn complain(act: &str, name: &str, reason: &str) -> (r: String)
    ensures
        r@ == complaint(act@, name@, reason@),
{
    let mut r = act.to_string();
    r.append(name);
    r.append(": ");
    r.append(reason);
    r
}

/// Puts an item into an archive.
fn add_item(
    w: ZipBuffer,
    name: &str,
    method: Method,
    content: &Result<Vec<u8>, String>,
) -> (r: Result<ZipBuffer, String>)
    requires
        vstd::utf8::encode_utf8(name@).len() <= MAX_NAME,
    ensures
        ({
            let item = ItemView { name: name@, method, content: read_view(*content) };
            match r {
                Ok(after) => {
                    &&& item_failure(entries_of(w), item) is None
                    &&& item.content is Ok
                    &&& !has_entry(entries_of(w), name@)
                    &&& entries_of(after) == entries_of(w).push(entry_of(item))
                },
                Err(m) => item_failure(entries_of(w), item) == Some(m@),
            }
        }),
{
    let ghost before = entries_of(w);
    let w = match start_entry(w, name, method) {
        Ok(w) => w,
        Err(e) => {
            return Err(complain("zip ", name, e.as_str()));
        },
    };
    let data = match content {
        Ok(data) => data,
        Err(e) => {
            return Err(complain("read ", name, e.as_str()));
        },
    };
    match write_data(w, data.as_slice()) {
        Ok(after) => {
            assert(entries_of(w).drop_last() =~= before);
            Ok(after)
        },
        Err(e) => Err(complain("write ", name, e.as_str())),
    }
}

/// What fails for the first items fails for all.
proof fn lemma_failure_prefix(items: Seq<ItemView>, n: int)
    requires
        0 <= n <= items.len(),
        first_failure(items.take(n)) is Some,
    ensures
        first_failure(items) == first_failure(items.take(n)),
    decreases items.len(),
{
    if n == items.len() {
        assert(items.take(n) =~= items);
    } else {
        assert(items.drop_last().take(n) =~= items.take(n));
        lemma_failure_prefix(items.drop_last(), n);
    }
}

/// One more item: what it adds to the first `n`.
proof fn lemma_next_item(items: Seq<ItemView>, n: int)
    requires
        0 <= n < items.len(),
        first_failure(items.take(n)) is None,
        distinct_names(items.take(n)),
    ensures
        entries_for(items.take(n + 1)) == entries_for(items.take(n)).push(entry_of(items[n])),
        first_failure(items.take(n + 1)) == item_failure(entries_for(items.take(n)), items[n]),
        first_failure(items.take(n + 1)) is Some ==> first_failure(items) == first_failure(
            items.take(n + 1),
        ),
        !has_entry(entries_for(items.take(n)), items[n].name) ==> distinct_names(items.take(n + 1)),
{
    assert(items.take(n + 1).drop_last() =~= items.take(n));
    assert(items.take(n + 1).last() == items[n]);
    assert(entries_for(items.take(n + 1)) =~= entries_for(items.take(n)).push(entry_of(items[n])));
    if first_failure(items.take(n + 1)) is Some {
        lemma_failure_prefix(items, n + 1);
    }
    if !has_entry(entries_for(items.take(n)), items[n].name) {
        let now = items.take(n + 1);
        assert forall|a: int, b: int| 0 <= a < b < now.len() implies #[trigger] now[a].name
            != #[trigger] now[b].name by {
            assert(now[a] == items.take(n)[a]);
            if b < n {
                assert(now[b] == items.take(n)[b]);
            } else {
                assert(entries_for(items.take(n))[a].name == items.take(n)[a].name);
            }
        }
    }
}

/// The archive of `mimetype` and of the files in the given order.
fn archive_in_order(
    mimetype: &Result<Vec<u8>, String>,
    files: &Vec<SourceFile>,
    order: &Vec<usize>,
) -> (r: Result<Vec<u8>, String>)
    requires
        forall|k: int| 0 <= k < order@.len() ==> (#[trigger] order@[k]) < files@.len(),
        forall|i: int|
            0 <= i < files@.len() ==> vstd::utf8::encode_utf8(
                entry_name((#[trigger] files@[i])@),
            ).len() <= MAX_NAME,
    ensures
        ({
            let items = epub_items(
                read_view(*mimetype),
                source_views(files@),
                numbers(order@),
            );
            &&& read_view(r) == archive_of(items)
            &&& r is Ok ==> distinct_names(items)
        }),
{
    let ghost items = epub_items(read_view(*mimetype), source_views(files@), numbers(order@));
    let w = new_archive();
    proof {
        reveal_strlit("mimetype");
        vstd::utf8::is_ascii_chars_encode_utf8("mimetype"@);
        assert(entries_for(items.take(0)) =~= entries_of(w));
        lemma_next_item(items, 0);
    }
    let mut w = match add_item(w, "mimetype", Method::Stored, mimetype) {
        Ok(w) => w,
        Err(m) => {
            return Err(m);
        },
    };
    let mut k: usize = 0;
    while k < order.len()
        invariant
            k <= order@.len(),
            forall|j: int| 0 <= j < order@.len() ==> (#[trigger] order@[j]) < files@.len(),
            forall|i: int|
                0 <= i < files@.len() ==> vstd::utf8::encode_utf8(
                    entry_name((#[trigger] files@[i])@),
                ).len() <= MAX_NAME,
            items == epub_items(read_view(*mimetype), source_views(files@), numbers(order@)),
            items.len() == order@.len() + 1,
            entries_of(w) == entries_for(items.take(k + 1)),
            first_failure(items.take(k + 1)) is None,
            distinct_names(items.take(k + 1)),
        decreases order@.len() - k,
    {
        let f = &files[order[k]];
        let name = text::replace_char(f.name.as_str(), '\\', "/");
        proof {
            assert(f@ == source_views(files@)[numbers(order@)[k as int]]);
            lemma_next_item(items, k + 1);
        }
        w = match add_item(w, name.as_str(), Method::Deflated, &f.content) {
            Ok(w) => w,
            Err(m) => {
                return Err(m);
            },
        };
        k += 1;
    }
    assert(items.take(k + 1) =~= items);
    match finish_archive(w) {
        Ok(bytes) => Ok(bytes),
        Err(e) => Err("zip finish: ".to_string().concat(e.as_str())),
    }
}

/// The epub made of the file `mimetype` and of the files found in the source folder.
pub fn build_epub(mimetype: &Result<Vec<u8>, String>, files: &Vec<SourceFile>) -> (r: Result<
    Vec<u8>,
    String,
>)
    requires
        forall|i: int|
            0 <= i < files@.len() ==> vstd::utf8::encode_utf8(
                entry_name((#[trigger] files@[i])@),
            ).len() <= MAX_NAME,
    ensures
        exists|order: Seq<int>| #[trigger]
            is_file_order(source_views(files@), order) && ({
                let items = epub_items(read_view(*mimetype), source_views(files@), order);
                &&& read_view(r) == archive_of(items)
                &&& r is Ok ==> distinct_names(items)
            }),
{
    let order = file_order(files);
    assert forall|k: int| 0 <= k < order@.len() implies (#[trigger] order@[k]) < files@.len() by {
        assert(numbers(order@)[k] == order@[k]);
    }
    archive_in_order(mimetype, files, &order)
}

/// The order of the files is the only one there is.
pub proof fn law_file_order_is_unique(files: Seq<SourceView>, a: Seq<int>, b: Seq<int>)
    requires
        is_file_order(files, a),
        is_file_order(files, b),
    ensures
        a == b,
{
    lemma_same_prefix(files, a, b, a.len() as int);
    lemma_same_prefix(files, b, a, b.len() as int);
    assert(a.take(a.len() as int) =~= a);
    assert(b.take(b.len() as int) =~= b);
}

/// A file does not sort before itself, and of two files only one sorts before the
/// other.
proof fn lemma_sorts_one_way(files: Seq<SourceView>, i: int, j: int)
    requires
        sorts_before(files, i, j),
    ensures
        i != j,
        !sorts_before(files, j, i),
{
    lemma_path_irreflexive(files[i].path);
    if path_before(files[i].path, files[j].path) && path_before(files[j].path, files[i].path) {
        lemma_path_transitive(files[i].path, files[j].path, files[i].path);
    }
}

/// Two orders begin alike.
proof fn lemma_same_prefix(files: Seq<SourceView>, a: Seq<int>, b: Seq<int>, n: int)
    requires
        is_file_order(files, a),
        is_file_order(files, b),
        0 <= n <= a.len(),
    ensures
        n <= b.len(),
        a.take(n) == b.take(n),
    decreases n,
{
    if n > 0 {
        lemma_same_prefix(files, a, b, n - 1);
        let x = a[n - 1];
        assert(b.contains(x));
        let p = choose|p: int| 0 <= p < b.len() && b[p] == x;
        if p < n - 1 {
            assert(a.take(n - 1)[p] == b.take(n - 1)[p]);
            assert(sorts_before(files, a[p], a[n - 1]));
            lemma_sorts_one_way(files, a[p], a[n - 1]);
        }
        let y = b[n - 1];
        if y != x {
            assert(sorts_before(files, b[n - 1], b[p]));
            assert(a.contains(y));
            let q = choose|q: int| 0 <= q < a.len() && a[q] == y;
            if q < n - 1 {
                assert(a.take(n - 1)[q] == b.take(n - 1)[q]);
                assert(sorts_before(files, b[q], b[n - 1]));
                lemma_sorts_one_way(files, b[q], b[n - 1]);
            } else {
                assert(sorts_before(files, a[n - 1], a[q]));
                lemma_sorts_one_way(files, x, y);
            }
        }
        assert forall|k: int| 0 <= k < n implies a[k] == b[k] by {
            if k < n - 1 {
                assert(a.take(n - 1)[k] == b.take(n - 1)[k]);
            }
        }
        assert(a.take(n) =~= b.take(n));
    } else {
        assert(a.take(0) =~= b.take(0));
    }
}

/// In an epub `mimetype` comes first and is stored as it is; everything else is
/// compressed.
pub proof fn law_mimetype_first_and_stored(
    mimetype: Result<Seq<u8>, Seq<char>>,
    files: Seq<SourceView>,
    order: Seq<int>,
    k: int,
)
    requires
        is_file_order(files, order),
        0 <= k < epub_items(mimetype, files, order).len(),
    ensures
        epub_items(mimetype, files, order)[0] == (ItemView {
            name: "mimetype"@,
            method: Method::Stored,
            content: mimetype,
        }),
        epub_items(mimetype, files, order)[k].method == Method::Stored <==> k == 0,
{
}

/// Every file but `mimetype` is put into the epub exactly once.
pub proof fn law_every_file_once(
    mimetype: Result<Seq<u8>, Seq<char>>,
    files: Seq<SourceView>,
    order: Seq<int>,
    i: int,
)
    requires
        is_file_order(files, order),
        0 <= i < files.len(),
        !is_mimetype(files[i].path),
    ensures
        exists|k: int|
            0 <= k < order.len() && #[trigger] order[k] == i && epub_items(
                mimetype,
                files,
                order,
            )[k + 1] == (ItemView {
                name: entry_name(files[i]),
                method: Method::Deflated,
                content: files[i].content,
            }),
        order.no_duplicates(),
{
    assert(order.contains(i));
    let k = choose|k: int| 0 <= k < order.len() && order[k] == i;
    assert(order[k] == i);
    assert forall|a: int, b: int| 0 <= a < order.len() && 0 <= b < order.len() && a != b implies
        order[a] != order[b] by {
        if a < b {
            lemma_sorts_one_way(files, order[a], order[b]);
        } else {
            lemma_sorts_one_way(files, order[b], order[a]);
        }
    }
}

/// There is no epub unless every file that belongs into it can be read.
pub proof fn law_unreadable_file_fails(items: Seq<ItemView>, k: int)
    requires
        0 <= k < items.len(),
        items[k].content is Err,
    ensures
        archive_of(items) is Err,
{
    let upto = items.take(k + 1);
    assert(upto.last() == items[k]);
    assert(first_failure(upto) is Some);
    lemma_failure_prefix(items, k + 1);
}

/// The one file that is left out of the order is the one whose path is `mimetype` and
/// nothing else: every file in a folder is put into the archive, whatever it is called,
/// and so is every other file at the top.
pub proof fn law_only_mimetype_is_left_out(files: Seq<SourceView>, order: Seq<int>, i: int)
    requires
        is_file_order(files, order),
        0 <= i < files.len(),
    ensures
        files[i].path.len() != 1 ==> order.contains(i),
        files[i].path.len() == 1 ==> (order.contains(i) <==> files[i].path[0]
            != vstd::utf8::encode_utf8("mimetype"@)),
        order.no_duplicates(),
        forall|k: int| 0 <= k < order.len() ==> 0 <= #[trigger] order[k] < files.len(),
{
    if order.contains(i) {
        let k = choose|k: int| 0 <= k < order.len() && order[k] == i;
        assert(!is_mimetype(files[order[k]].path));
    }
    assert forall|a: int, b: int| 0 <= a < order.len() && 0 <= b < order.len() && a != b implies
        order[a] != order[b] by {
        if a < b {
            lemma_sorts_one_way(files, order[a], order[b]);
        } else {
            lemma_sorts_one_way(files, order[b], order[a]);
        }
    }
}

/// Bytes are compared at the first place where they differ; where there is none, the
/// shorter comes first.
pub proof fn law_bytes_by_first_difference(
    same: Seq<u8>,
    x: u8,
    y: u8,
    a: Seq<u8>,
    b: Seq<u8>,
)
    ensures
        x != y ==> (bytes_before(same + seq![x] + a, same + seq![y] + b) <==> x < y),
        bytes_before(same, same + seq![y] + b),
        !bytes_before(same + seq![y] + b, same),
        !bytes_before(same, same),
    decreases same.len(),
{
    let l = same + seq![x] + a;
    let r = same + seq![y] + b;
    lemma_bytes_irreflexive(same);
    if same.len() > 0 {
        let rest = same.drop_first();
        law_bytes_by_first_difference(rest, x, y, a, b);
        assert(l.drop_first() =~= rest + seq![x] + a);
        assert(r.drop_first() =~= rest + seq![y] + b);
        assert(l[0] == same[0] && r[0] == same[0]);
    }
}

/// Paths are compared at the first part in which they differ, by its bytes; where there
/// is none, the shorter path comes first.
pub proof fn law_paths_by_first_difference(
    same: Seq<Seq<u8>>,
    x: Seq<u8>,
    y: Seq<u8>,
    a: Seq<Seq<u8>>,
    b: Seq<Seq<u8>>,
)
    ensures
        x != y ==> (path_before(same + seq![x] + a, same + seq![y] + b) <==> bytes_before(x, y)),
        path_before(same, same + seq![y] + b),
        !path_before(same + seq![y] + b, same),
        !path_before(same, same),
    decreases same.len(),
{
    let l = same + seq![x] + a;
    let r = same + seq![y] + b;
    lemma_path_irreflexive(same);
    if same.len() > 0 {
        let rest = same.drop_first();
        law_paths_by_first_difference(rest, x, y, a, b);
        lemma_bytes_irreflexive(same[0]);
        assert(l.drop_first() =~= rest + seq![x] + a);
        assert(r.drop_first() =~= rest + seq![y] + b);
        assert(l[0] == same[0] && r[0] == same[0]);
    }
}

/// Files are put into the archive in the order of their paths, and files of one path in
/// the order of the list.
pub proof fn law_files_are_sorted(files: Seq<SourceView>, order: Seq<int>, a: int, b: int)
    requires
        is_file_order(files, order),
        0 <= a < order.len(),
        0 <= b < order.len(),
    ensures
        path_before(files[order[a]].path, files[order[b]].path) ==> a < b,
        files[order[a]].path == files[order[b]].path ==> (a < b <==> order[a] < order[b]),
{
    let i = order[a];
    let j = order[b];
    lemma_path_irreflexive(files[i].path);
    if b < a {
        assert(sorts_before(files, j, i));
        lemma_sorts_one_way(files, j, i);
    } else if a < b {
        assert(sorts_before(files, i, j));
    }
}

/// What is put into an epub: behind `mimetype`, one item for each file of the order, with
/// the file's content, and its name with each backslash turned into a slash.
pub proof fn law_items_are_the_files(
    mimetype: Result<Seq<u8>, Seq<char>>,
    files: Seq<SourceView>,
    order: Seq<int>,
    k: int,
)
    requires
        0 <= k < order.len(),
    ensures
        ({
            let items = epub_items(mimetype, files, order);
            let f = files[order[k]];
            &&& items.len() == order.len() + 1
            &&& items[k + 1].content == f.content
            &&& items[k + 1].method == Method::Deflated
            &&& items[k + 1].name.len() == f.name.len()
            &&& forall|i: int|
                0 <= i < f.name.len() ==> #[trigger] items[k + 1].name[i] == if f.name[i] == '\\' {
                    '/'
                } else {
                    f.name[i]
                }
        }),
{
    reveal_strlit("/");
    assert("/"@ =~= seq!['/']);
    text::lemma_replaced_one(files[order[k]].name, '\\', '/');
}

/// An archive that is made holds every item it was given, in order, each with its name,
/// its method and all its data.
pub proof fn law_archive_holds_every_item(items: Seq<ItemView>, bytes: Seq<u8>)
    requires
        archive_of(items) == Ok::<Seq<u8>, Seq<char>>(bytes),
    ensures
        forall|k: int| 0 <= k < items.len() ==> (#[trigger] items[k]).content is Ok,
        exists|entries: Seq<EntryView>|
            {
                &&& #[trigger] zip_file(entries) == Ok::<Seq<u8>, Seq<char>>(bytes)
                &&& entries.len() == items.len()
                &&& forall|k: int|
                    0 <= k < items.len() ==> {
                        &&& (#[trigger] entries[k]).name == items[k].name
                        &&& entries[k].method == items[k].method
                        &&& items[k].content == Ok::<Seq<u8>, Seq<char>>(entries[k].data)
                    }
            },
{
    assert forall|k: int| 0 <= k < items.len() implies (#[trigger] items[k]).content is Ok by {
        if items[k].content is Err {
            law_unreadable_file_fails(items, k);
        }
    }
    let entries = entries_for(items);
    assert(zip_file(entries) == Ok::<Seq<u8>, Seq<char>>(bytes));
    assert forall|k: int| 0 <= k < items.len() implies {
        &&& (#[trigger] entries[k]).name == items[k].name
        &&& entries[k].method == items[k].method
        &&& items[k].content == Ok::<Seq<u8>, Seq<char>>(entries[k].data)
    } by {
        assert(items[k].content is Ok);
    }
}

/// The first item that cannot be put into an archive is told by its name: where the
/// archive refuses it, where it cannot be read, and where its data cannot be written. What
/// comes behind it does not matter. Where no item fails, finishing the archive decides.
pub proof fn law_first_failure_is_told(
    before: Seq<ItemView>,
    item: ItemView,
    after: Seq<ItemView>,
    e: Seq<char>,
)
    requires
        first_failure(before) is None,
    ensures
        ({
            let r = archive_of(before + seq![item] + after);
            let entries = entries_for(before);
            let started = entries.push(
                EntryView { name: item.name, method: item.method, data: Seq::empty() },
            );
            let start = zip_start_error(entries, item.name, item.method);
            &&& start == Some(e) ==> r == Err::<Seq<u8>, _>("zip "@ + item.name + ": "@ + e)
            &&& start is None && item.content == Err::<Seq<u8>, _>(e) ==> r == Err::<Seq<u8>, _>(
                "read "@ + item.name + ": "@ + e,
            )
            &&& start is None && item.content is Ok && zip_write_error(
                started,
                item.content->Ok_0,
            ) == Some(e) ==> r == Err::<Seq<u8>, _>("write "@ + item.name + ": "@ + e)
            &&& start is None && item.content is Ok && zip_write_error(
                started,
                item.content->Ok_0,
            ) is None ==> first_failure(before + seq![item]) is None
        }),
        first_failure(Seq::empty()) is None,
        archive_of(before) == match zip_file(entries_for(before)) {
            Ok(bytes) => Ok(bytes),
            Err(reason) => Err("zip finish: "@ + reason),
        },
{
    let all = before + seq![item] + after;
    let upto = before + seq![item];
    let n = before.len() + 1int;
    assert(all.take(n) =~= upto);
    assert(upto.drop_last() =~= before);
    assert(upto.last() == item);
    if first_failure(upto) is Some {
        lemma_failure_prefix(all, n);
    }
}

} // verus!
