//! The choice of the files to work on.

use vstd::prelude::*;
use crate::names::{
    extension, extension_of, law_name_is_split_at_its_last_dot, law_name_is_stem_and_extension,
    law_name_without_a_dot_is_its_stem, stem_of,
};

verus! {

/// What a path may begin with, on systems that have more than one root.
#[derive(Debug)]
pub enum PathPrefix {
    /// A name that is taken as it is.
    Verbatim(Vec<u8>),
    /// A server and a share, taken as they are.
    VerbatimUnc(Vec<u8>, Vec<u8>),
    /// The letter of a drive, in upper case, for a path that is taken as it is.
    VerbatimDisk(u8),
    /// A device.
    DeviceNs(Vec<u8>),
    /// A server and a share.
    Unc(Vec<u8>, Vec<u8>),
    /// The letter of a drive, in upper case.
    Disk(u8),
}

/// One part of a path.
#[derive(Debug)]
pub enum PathPart {
    /// A prefix such as a drive.
    Prefix(PathPrefix),
    /// The root directory.
    RootDir,
    /// The current directory.
    CurDir,
    /// The parent directory.
    ParentDir,
    /// A name.
    Normal(Vec<u8>),
}

/// A file that may be worked on: a number to find it by, its name, and its path, part by part.
#[derive(Debug)]
pub struct InputFile {
    pub id: usize,
    pub name: String,
    pub parts: Vec<PathPart>,
}

/// What a path that was given as an input leads to.
#[derive(Debug)]
pub enum Probe {
    /// A directory with these entries; none if it cannot be read.
    Directory(Vec<InputFile>),
    /// A file.
    File(InputFile),
    /// Nothing, or something that is neither a directory nor a file.
    Missing,
}

/// The order of two byte strings, as -1, 0 or 1: by the first byte in which they differ, and a
/// string comes before those that it begins.
pub open spec fn bytes_order(a: Seq<u8>, b: Seq<u8>) -> int
    decreases a.len(),
{
    if a.len() == 0 {
        if b.len() == 0 {
            0
        } else {
            -1
        }
    } else if b.len() == 0 {
        1
    } else if a[0] < b[0] {
        -1
    } else if a[0] > b[0] {
        1
    } else {
        bytes_order(a.skip(1), b.skip(1))
    }
}

impl PathPrefix {
    /// The place of a prefix among the kinds of prefixes.
    pub open spec fn rank(&self) -> int {
        match self {
            PathPrefix::Verbatim(_) => 0,
            PathPrefix::VerbatimUnc(_, _) => 1,
            PathPrefix::VerbatimDisk(_) => 2,
            PathPrefix::DeviceNs(_) => 3,
            PathPrefix::Unc(_, _) => 4,
            PathPrefix::Disk(_) => 5,
        }
    }

    /// The name in a prefix: the server where there is one.
    pub open spec fn name(&self) -> Seq<u8> {
        match self {
            PathPrefix::Verbatim(name) => name@,
            PathPrefix::VerbatimUnc(server, _) => server@,
            PathPrefix::VerbatimDisk(letter) => seq![*letter],
            PathPrefix::DeviceNs(name) => name@,
            PathPrefix::Unc(server, _) => server@,
            PathPrefix::Disk(letter) => seq![*letter],
        }
    }

    /// The share in a prefix.
    pub open spec fn share(&self) -> Seq<u8> {
        match self {
            PathPrefix::VerbatimUnc(_, share) => share@,
            PathPrefix::Unc(_, share) => share@,
            _ => Seq::empty(),
        }
    }
}

/// The order of two prefixes: by their kinds, then by their names, then by their shares.
pub open spec fn prefix_order(a: PathPrefix, b: PathPrefix) -> int {
    if a.rank() < b.rank() {
        -1
    } else if a.rank() > b.rank() {
        1
    } else if bytes_order(a.name(), b.name()) != 0 {
        bytes_order(a.name(), b.name())
    } else {
        bytes_order(a.share(), b.share())
    }
}

impl PathPart {
    /// The place of a part among the kinds of parts.
    pub open spec fn rank(&self) -> int {
        match self {
            PathPart::Prefix(_) => 0,
            PathPart::RootDir => 1,
            PathPart::CurDir => 2,
            PathPart::ParentDir => 3,
            PathPart::Normal(_) => 4,
        }
    }
}

/// The order of two parts: by their kinds; of two prefixes by the order of prefixes, and of two
/// names by their bytes.
pub open spec fn part_order(a: PathPart, b: PathPart) -> int {
    if a.rank() < b.rank() {
        -1
    } else if a.rank() > b.rank() {
        1
    } else {
        match (a, b) {
            (PathPart::Prefix(p), PathPart::Prefix(q)) => prefix_order(p, q),
            (PathPart::Normal(p), PathPart::Normal(q)) => bytes_order(p@, q@),
            _ => 0,
        }
    }
}

/// The order of two paths: by the first part in which they differ, and a path comes before
/// those that it begins.
pub open spec fn path_order(a: Seq<PathPart>, b: Seq<PathPart>) -> int
    decreases a.len(),
{
    if a.len() == 0 {
        if b.len() == 0 {
            0
        } else {
            -1
        }
    } else if b.len() == 0 {
        1
    } else if part_order(a[0], b[0]) != 0 {
        part_order(a[0], b[0])
    } else {
        path_order(a.skip(1), b.skip(1))
    }
}

proof fn lemma_bytes_order(a: Seq<u8>, b: Seq<u8>, c: Seq<u8>)
    ensures
        -1 <= bytes_order(a, b) <= 1,
        bytes_order(a, b) == -bytes_order(b, a),
        bytes_order(a, b) <= 0 && bytes_order(b, c) <= 0 ==> bytes_order(a, c) <= 0,
        bytes_order(a, b) == 0 ==> bytes_order(a, c) == bytes_order(b, c),
        bytes_order(b, c) == 0 ==> bytes_order(a, c) == bytes_order(a, b),
    decreases a.len() + b.len() + c.len(),
{
    if a.len() > 0 && b.len() > 0 && c.len() > 0 {
        lemma_bytes_order(a.skip(1), b.skip(1), c.skip(1));
    } else if a.len() > 0 && b.len() > 0 {
        lemma_bytes_order(a.skip(1), b.skip(1), c);
    }
}

proof fn lemma_prefix_order(a: PathPrefix, b: PathPrefix, c: PathPrefix)
    ensures
        -1 <= prefix_order(a, b) <= 1,
        prefix_order(a, b) == -prefix_order(b, a),
        prefix_order(a, b) <= 0 && prefix_order(b, c) <= 0 ==> prefix_order(a, c) <= 0,
        prefix_order(a, b) == 0 ==> prefix_order(a, c) == prefix_order(b, c),
        prefix_order(b, c) == 0 ==> prefix_order(a, c) == prefix_order(a, b),
{
    lemma_bytes_order(a.name(), b.name(), c.name());
    lemma_bytes_order(a.name(), c.name(), b.name());
    lemma_bytes_order(b.name(), c.name(), a.name());
    lemma_bytes_order(a.share(), b.share(), c.share());
}

proof fn lemma_part_order(a: PathPart, b: PathPart, c: PathPart)
    ensures
        -1 <= part_order(a, b) <= 1,
        part_order(a, b) == -part_order(b, a),
        part_order(a, b) <= 0 && part_order(b, c) <= 0 ==> part_order(a, c) <= 0,
        part_order(a, b) == 0 ==> part_order(a, c) == part_order(b, c),
        part_order(b, c) == 0 ==> part_order(a, c) == part_order(a, b),
{
    match (a, b, c) {
        (PathPart::Prefix(p), PathPart::Prefix(q), PathPart::Prefix(r)) => {
            lemma_prefix_order(p, q, r);
        },
        (PathPart::Prefix(p), PathPart::Prefix(q), _) => {
            lemma_prefix_order(p, q, q);
        },
        (PathPart::Normal(p), PathPart::Normal(q), PathPart::Normal(r)) => {
            lemma_bytes_order(p@, q@, r@);
        },
        (PathPart::Normal(p), PathPart::Normal(q), _) => {
            lemma_bytes_order(p@, q@, q@);
        },
        _ => {},
    }
}

/// The order of paths is total and transitive.
pub proof fn law_paths_are_ordered(a: Seq<PathPart>, b: Seq<PathPart>, c: Seq<PathPart>)
    ensures
        -1 <= path_order(a, b) <= 1,
        path_order(a, b) == -path_order(b, a),
        path_order(a, b) <= 0 && path_order(b, c) <= 0 ==> path_order(a, c) <= 0,
        path_order(a, b) == 0 ==> path_order(a, c) == path_order(b, c),
        path_order(b, c) == 0 ==> path_order(a, c) == path_order(a, b),
    decreases a.len() + b.len() + c.len(),
{
    if a.len() > 0 && b.len() > 0 && c.len() > 0 {
        lemma_part_order(a[0], b[0], c[0]);
        lemma_part_order(a[0], c[0], b[0]);
        lemma_part_order(b[0], c[0], a[0]);
        law_paths_are_ordered(a.skip(1), b.skip(1), c.skip(1));
    } else if a.len() > 0 && b.len() > 0 {
        lemma_part_order(a[0], b[0], b[0]);
        law_paths_are_ordered(a.skip(1), b.skip(1), c);
    }
}

/// The order of two byte strings.
fn bytes_order_of(a: &Vec<u8>, b: &Vec<u8>) -> (order: i32)
    ensures
        order == bytes_order(a@, b@),
{
    let mut i: usize = 0;
    assert(a@.skip(0) =~= a@);
    assert(b@.skip(0) =~= b@);
    while i < a.len() && i < b.len()
        invariant
            0 <= i <= a@.len(),
            i <= b@.len(),
            bytes_order(a@, b@) == bytes_order(a@.skip(i as int), b@.skip(i as int)),
        decreases a@.len() - i,
    {
        if a[i] < b[i] {
            return -1;
        }
        if a[i] > b[i] {
            return 1;
        }
        assert(a@.skip(i as int).skip(1) =~= a@.skip(i + 1));
        assert(b@.skip(i as int).skip(1) =~= b@.skip(i + 1));
        i = i + 1;
    }
    if i < a.len() {
        1
    } else if i < b.len() {
        -1
    } else {
        0
    }
}

/// The order of two bytes, each as a byte string.
fn letters_order_of(a: u8, b: u8) -> (order: i32)
    ensures
        order == bytes_order(seq![a], seq![b]),
{
    assert(bytes_order(seq![a].skip(1), seq![b].skip(1)) == 0);
    if a < b {
        -1
    } else if a > b {
        1
    } else {
        0
    }
}

/// The place of a prefix among the kinds of prefixes.
fn prefix_rank_of(prefix: &PathPrefix) -> (rank: i32)
    ensures
        rank == prefix.rank(),
{
    match prefix {
        PathPrefix::Verbatim(_) => 0,
        PathPrefix::VerbatimUnc(_, _) => 1,
        PathPrefix::VerbatimDisk(_) => 2,
        PathPrefix::DeviceNs(_) => 3,
        PathPrefix::Unc(_, _) => 4,
        PathPrefix::Disk(_) => 5,
    }
}

/// The order of the pairs (`a`, `b`) and (`c`, `d`) of byte strings.
fn pairs_order_of(a: &Vec<u8>, b: &Vec<u8>, c: &Vec<u8>, d: &Vec<u8>) -> (order: i32)
    ensures
        order == (if bytes_order(a@, c@) != 0 {
            bytes_order(a@, c@)
        } else {
            bytes_order(b@, d@)
        }),
{
    let order: i32 = bytes_order_of(a, c);
    if order != 0 {
        order
    } else {
        bytes_order_of(b, d)
    }
}

/// The order of two prefixes.
fn prefix_order_of(a: &PathPrefix, b: &PathPrefix) -> (order: i32)
    ensures
        order == prefix_order(*a, *b),
{
    let left: i32 = prefix_rank_of(a);
    let right: i32 = prefix_rank_of(b);
    if left < right {
        -1
    } else if left > right {
        1
    } else {
        match (a, b) {
            (PathPrefix::Verbatim(s), PathPrefix::Verbatim(t)) => bytes_order_of(s, t),
            (PathPrefix::VerbatimUnc(s, p), PathPrefix::VerbatimUnc(t, q)) => pairs_order_of(
                s,
                p,
                t,
                q,
            ),
            (PathPrefix::VerbatimDisk(s), PathPrefix::VerbatimDisk(t)) => letters_order_of(*s, *t),
            (PathPrefix::DeviceNs(s), PathPrefix::DeviceNs(t)) => bytes_order_of(s, t),
            (PathPrefix::Unc(s, p), PathPrefix::Unc(t, q)) => pairs_order_of(s, p, t, q),
            (PathPrefix::Disk(s), PathPrefix::Disk(t)) => letters_order_of(*s, *t),
            _ => 0,
        }
    }
}

/// The place of a part among the kinds of parts.
fn rank_of(part: &PathPart) -> (rank: i32)
    ensures
        rank == part.rank(),
{
    match part {
        PathPart::Prefix(_) => 0,
        PathPart::RootDir => 1,
        PathPart::CurDir => 2,
        PathPart::ParentDir => 3,
        PathPart::Normal(_) => 4,
    }
}

/// The order of two parts.
fn part_order_of(a: &PathPart, b: &PathPart) -> (order: i32)
    ensures
        order == part_order(*a, *b),
{
    let left: i32 = rank_of(a);
    let right: i32 = rank_of(b);
    if left < right {
        -1
    } else if left > right {
        1
    } else {
        match (a, b) {
            (PathPart::Prefix(s), PathPart::Prefix(t)) => prefix_order_of(s, t),
            (PathPart::Normal(s), PathPart::Normal(t)) => bytes_order_of(s, t),
            _ => 0,
        }
    }
}

/// The order of two paths.
fn path_order_of(a: &Vec<PathPart>, b: &Vec<PathPart>) -> (order: i32)
    ensures
        order == path_order(a@, b@),
{
    let mut i: usize = 0;
    assert(a@.skip(0) =~= a@);
    assert(b@.skip(0) =~= b@);
    while i < a.len() && i < b.len()
        invariant
            0 <= i <= a@.len(),
            i <= b@.len(),
            path_order(a@, b@) == path_order(a@.skip(i as int), b@.skip(i as int)),
        decreases a@.len() - i,
    {
        let order: i32 = part_order_of(&a[i], &b[i]);
        if order != 0 {
            return order;
        }
        assert(a@.skip(i as int).skip(1) =~= a@.skip(i + 1));
        assert(b@.skip(i as int).skip(1) =~= b@.skip(i + 1));
        i = i + 1;
    }
    if i < a.len() {
        1
    } else if i < b.len() {
        -1
    } else {
        0
    }
}

/// Whether a file name is that of a picture: its extension is `jpg` or `png`.
pub open spec fn is_picture_name(name: Seq<char>) -> bool {
    extension_of(name) == Some("jpg"@) || extension_of(name) == Some("png"@)
}

/// Tells whether a file name is that of a picture.
pub fn has_picture_name(name: &str) -> (result: bool)
    ensures
        result == is_picture_name(name@),
{
    match extension(name) {
        Some(ext) => ext == "jpg".to_owned() || ext == "png".to_owned(),
        None => false,
    }
}

/// The pictures among the entries of a directory, in the order of the entries.
pub open spec fn pictures_among(entries: Seq<InputFile>) -> Seq<InputFile>
    decreases entries.len(),
{
    if entries.len() == 0 {
        Seq::empty()
    } else if is_picture_name(entries.last().name@) {
        pictures_among(entries.drop_last()).push(entries.last())
    } else {
        pictures_among(entries.drop_last())
    }
}

/// The files that a path leads to: the pictures in a directory, or the file itself, whatever
/// its name.
pub open spec fn files_of(probe: Probe) -> Seq<InputFile> {
    match probe {
        Probe::Directory(entries) => pictures_among(entries@),
        Probe::File(file) => seq![file],
        Probe::Missing => Seq::empty(),
    }
}

/// The files that paths lead to, one path after the other.
pub open spec fn files_of_all(probes: Seq<Probe>) -> Seq<InputFile>
    decreases probes.len(),
{
    if probes.len() == 0 {
        Seq::empty()
    } else {
        files_of_all(probes.drop_last()) + files_of(probes.last())
    }
}

/// Whether `order` lists the positions of `files` by the order of their paths, each position
/// once, and those of files with equal paths in ascending order.
pub open spec fn sorts(order: Seq<int>, files: Seq<InputFile>) -> bool {
    &&& order.len() == files.len()
    &&& forall|i: int| 0 <= i < order.len() ==> 0 <= #[trigger] order[i] < files.len()
    &&& forall|i: int, j: int|
        0 <= i < j < order.len() ==> comes_before(files, #[trigger] order[i], #[trigger] order[j])
}

/// Whether position `a` of `files` belongs before position `b`.
pub open spec fn comes_before(files: Seq<InputFile>, a: int, b: int) -> bool {
    let order = path_order(files[a].parts@, files[b].parts@);
    order < 0 || (order == 0 && a < b)
}

/// The numbers of `files` in the order that `order` gives.
pub open spec fn ids_in_order(order: Seq<int>, files: Seq<InputFile>) -> Seq<usize> {
    Seq::new(order.len(), |i: int| files[order[i]].id)
}

/// The files that references point to.
pub open spec fn pointees(references: Seq<&InputFile>) -> Seq<InputFile> {
    Seq::new(references.len(), |i: int| *references[i])
}

/// Appends the pictures among the entries of a directory.
fn append_pictures<'a>(files: &mut Vec<&'a InputFile>, entries: &'a Vec<InputFile>)
    ensures
        pointees(final(files)@) == pointees(old(files)@) + pictures_among(entries@),
{
    let ghost before = pointees(files@);
    let mut i: usize = 0;
    assert(entries@.take(0) =~= Seq::empty());
    assert(before + Seq::<InputFile>::empty() =~= before);
    while i < entries.len()
        invariant
            0 <= i <= entries@.len(),
            pointees(files@) == before + pictures_among(entries@.take(i as int)),
        decreases entries@.len() - i,
    {
        let entry: &'a InputFile = &entries[i];
        let ghost known = files@;
        let ghost chosen = pictures_among(entries@.take(i as int));
        proof {
            let front = entries@.take(i + 1);
            assert(front.drop_last() =~= entries@.take(i as int));
            assert(front.last() == entries@[i as int]);
        }
        if has_picture_name(entry.name.as_str()) {
            files.push(entry);
            assert(pointees(files@) =~= pointees(known).push(*entry));
            assert((before + chosen).push(*entry) =~= before + chosen.push(*entry));
        }
        i = i + 1;
    }
    assert(entries@.take(i as int) =~= entries@);
}

/// The files that paths lead to, one path after the other.
fn list_files(probes: &Vec<Probe>) -> (files: Vec<&InputFile>)
    ensures
        pointees(files@) == files_of_all(probes@),
{
    let mut files: Vec<&InputFile> = Vec::new();
    let mut i: usize = 0;
    assert(probes@.take(0) =~= Seq::empty());
    assert(pointees(files@) =~= Seq::empty());
    while i < probes.len()
        invariant
            0 <= i <= probes@.len(),
            pointees(files@) == files_of_all(probes@.take(i as int)),
        decreases probes@.len() - i,
    {
        let ghost known = files@;
        proof {
            let front = probes@.take(i + 1);
            assert(front.drop_last() =~= probes@.take(i as int));
            assert(front.last() == probes@[i as int]);
        }
        match &probes[i] {
            Probe::Directory(entries) => {
                append_pictures(&mut files, entries);
            },
            Probe::File(file) => {
                files.push(file);
                assert(pointees(files@) =~= pointees(known) + seq![*file]);
            },
            Probe::Missing => {
                assert(pointees(known) + Seq::<InputFile>::empty() =~= pointees(known));
            },
        }
        i = i + 1;
    }
    assert(probes@.take(i as int) =~= probes@);
    files
}

/// The numbers of files, sorted by their paths. Files with equal paths keep their order.
fn sorted_ids(files: &Vec<&InputFile>) -> (ids: Vec<usize>)
    ensures
        exists|order: Seq<int>|
            #[trigger] sorts(order, pointees(files@)) && ids@ == ids_in_order(
                order,
                pointees(files@),
            ),
{
    let ghost all = pointees(files@);
    let ghost mut order: Seq<int> = Seq::empty();
    let mut places: Vec<usize> = Vec::new();
    let mut n: usize = 0;
    while n < files.len()
        invariant
            all == pointees(files@),
            0 <= n <= files@.len(),
            order.len() == n,
            places@.len() == n,
            forall|i: int| 0 <= i < n ==> #[trigger] order[i] == places@[i],
            forall|i: int| 0 <= i < n ==> 0 <= #[trigger] order[i] < n,
            forall|i: int, j: int|
                0 <= i < j < n ==> comes_before(all, #[trigger] order[i], #[trigger] order[j]),
        decreases files@.len() - n,
    {
        let mut at: usize = n;
        assert forall|i: int| 0 <= i < n implies #[trigger] places@[i] < n by {
            assert(order[i] == places@[i]);
        }
        while at > 0 && path_order_of(&files[places[at - 1]].parts, &files[n].parts) > 0
            invariant
                all == pointees(files@),
                0 <= n < files@.len(),
                0 <= at <= n,
                order.len() == n,
                places@.len() == n,
                forall|i: int| 0 <= i < n ==> #[trigger] order[i] == places@[i],
                forall|i: int| 0 <= i < n ==> 0 <= #[trigger] order[i] < n,
                forall|i: int| 0 <= i < n ==> #[trigger] places@[i] < n,
                forall|i: int|
                    at <= i < n ==> path_order(all[#[trigger] order[i]].parts@, all[n as int].parts@)
                        > 0,
            decreases at,
        {
            assert(order[at - 1] == places@[at - 1]);
            at = at - 1;
        }
        proof {
            if at > 0 {
                assert(order[at - 1] == places@[at - 1]);
            }
            let x = n as int;
            let p = at as int;
            assert forall|i: int| 0 <= i < p implies comes_before(all, #[trigger] order[i], x) by {
                let last = order[p - 1];
                law_paths_are_ordered(all[order[i]].parts@, all[last].parts@, all[x].parts@);
                if i < p - 1 {
                    assert(comes_before(all, order[i], order[p - 1]));
                }
            }
            assert forall|i: int| p <= i < n implies comes_before(all, x, #[trigger] order[i]) by {
                law_paths_are_ordered(all[order[i]].parts@, all[x].parts@, all[x].parts@);
            }
            let next = order.insert(p, x);
            order.insert_ensures(p, x);
            assert forall|i: int, j: int| 0 <= i < j < n + 1 implies comes_before(
                all,
                #[trigger] next[i],
                #[trigger] next[j],
            ) by {
                assert(next[i] == (if i < p {
                    order[i]
                } else if i == p {
                    x
                } else {
                    order[i - 1]
                }));
                assert(next[j] == (if j < p {
                    order[j]
                } else if j == p {
                    x
                } else {
                    order[j - 1]
                }));
            }
            assert forall|i: int| 0 <= i < n + 1 implies 0 <= #[trigger] next[i] < n + 1 by {
                assert(next[i] == (if i < p {
                    order[i]
                } else if i == p {
                    x
                } else {
                    order[i - 1]
                }));
            }
        }
        let ghost known = places@;
        places.insert(at, n);
        proof {
            known.insert_ensures(at as int, n);
            let next = order.insert(at as int, n as int);
            assert forall|i: int| 0 <= i < n + 1 implies #[trigger] next[i] == places@[i] by {
                if i > at {
                    assert(next[i] == order[i - 1]);
                    assert(places@[i] == known[i - 1]);
                }
            }
            order = next;
        }
        n = n + 1;
    }
    let mut ids: Vec<usize> = Vec::new();
    let mut i: usize = 0;
    while i < places.len()
        invariant
            all == pointees(files@),
            order.len() == files@.len(),
            places@.len() == order.len(),
            forall|k: int| 0 <= k < order.len() ==> #[trigger] order[k] == places@[k],
            forall|k: int| 0 <= k < order.len() ==> 0 <= #[trigger] order[k] < files@.len(),
            0 <= i <= places@.len(),
            ids@.len() == i,
            forall|k: int| 0 <= k < i ==> #[trigger] ids@[k] == all[order[k]].id,
        decreases places@.len() - i,
    {
        assert(order[i as int] == places@[i as int]);
        let place: usize = places[i];
        ids.push(files[place].id);
        i = i + 1;
    }
    assert(sorts(order, all));
    assert(ids@ =~= ids_in_order(order, all));
    ids
}

/// The numbers of the files to work on.
///
/// Without inputs these are the pictures among the entries of the default directory, in the
/// order in which it lists them. With inputs they are the files that the inputs lead to,
/// sorted by their paths.
pub fn collect_inputs(probes: &Vec<Probe>, default_entries: &Vec<InputFile>) -> (ids: Vec<usize>)
    ensures
        probes@.len() == 0 ==> ids@ == Seq::new(
            pictures_among(default_entries@).len(),
            |i: int| pictures_among(default_entries@)[i].id,
        ),
        probes@.len() > 0 ==> exists|order: Seq<int>|
            #[trigger] sorts(order, files_of_all(probes@)) && ids@ == ids_in_order(
                order,
                files_of_all(probes@),
            ),
{
    if probes.len() == 0 {
        let mut files: Vec<&InputFile> = Vec::new();
        append_pictures(&mut files, default_entries);
        assert(pointees(files@) =~= pictures_among(default_entries@));
        let mut ids: Vec<usize> = Vec::new();
        let mut i: usize = 0;
        while i < files.len()
            invariant
                0 <= i <= files@.len(),
                ids@.len() == i,
                forall|k: int| 0 <= k < i ==> #[trigger] ids@[k] == files@[k].id,
            decreases files@.len() - i,
        {
            ids.push(files[i].id);
            i = i + 1;
        }
        assert(ids@ =~= Seq::new(
            pictures_among(default_entries@).len(),
            |k: int| pointees(files@)[k].id,
        ));
        ids
    } else {
        let files: Vec<&InputFile> = list_files(probes);
        sorted_ids(&files)
    }
}

/// A position does not come before itself, and of two positions only one comes before the
/// other.
proof fn lemma_comes_before(files: Seq<InputFile>, a: int, b: int)
    ensures
        !comes_before(files, a, a),
        !(comes_before(files, a, b) && comes_before(files, b, a)),
{
    law_paths_are_ordered(files[a].parts@, files[a].parts@, files[a].parts@);
    law_paths_are_ordered(files[a].parts@, files[b].parts@, files[b].parts@);
}

/// A sorting lists every position.
proof fn lemma_sorting_is_complete(order: Seq<int>, files: Seq<InputFile>, v: int)
    requires
        sorts(order, files),
        0 <= v < files.len(),
    ensures
        order.contains(v),
{
    let n = files.len() as int;
    assert forall|i: int, j: int| 0 <= i < order.len() && 0 <= j < order.len() && i
        != j implies order[i] != order[j] by {
        lemma_comes_before(files, order[i], order[j]);
        if i < j {
            assert(comes_before(files, order[i], order[j]));
        } else {
            assert(comes_before(files, order[j], order[i]));
        }
    }
    order.unique_seq_to_set();
    let listed = order.to_set();
    let range = vstd::set_lib::set_int_range(0, n);
    vstd::set_lib::lemma_int_range(0, n);
    assert forall|x: int| listed.contains(x) implies range.contains(x) by {
        let i = choose|i: int| 0 <= i < order.len() && order[i] == x;
        assert(0 <= order[i] < files.len());
    }
    vstd::set_lib::lemma_subset_equality(listed, range);
    assert(range.contains(v));
    assert(listed.contains(v));
}

/// Two sortings of the same files agree up to any position.
proof fn lemma_sortings_agree(a: Seq<int>, b: Seq<int>, files: Seq<InputFile>, n: int)
    requires
        sorts(a, files),
        sorts(b, files),
        0 <= n <= files.len(),
    ensures
        forall|i: int| 0 <= i < n ==> a[i] == b[i],
    decreases n,
{
    if n > 0 {
        let i = n - 1;
        lemma_sortings_agree(a, b, files, i);
        if a[i] != b[i] {
            lemma_sorting_is_complete(a, files, b[i]);
            lemma_sorting_is_complete(b, files, a[i]);
            let p = choose|p: int| 0 <= p < a.len() && a[p] == b[i];
            let q = choose|q: int| 0 <= q < b.len() && b[q] == a[i];
            lemma_comes_before(files, a[i], b[i]);
            if p < i {
                assert(comes_before(files, b[p], b[i]));
                lemma_comes_before(files, b[i], b[i]);
            } else if q < i {
                assert(comes_before(files, a[q], a[i]));
                lemma_comes_before(files, a[i], a[i]);
            } else {
                assert(comes_before(files, a[i], a[p]));
                assert(comes_before(files, b[i], b[q]));
            }
        }
    }
}

/// There is only one way to sort files by their paths, and it leaves none out.
pub proof fn law_sorting_is_unique(a: Seq<int>, b: Seq<int>, files: Seq<InputFile>)
    requires
        sorts(a, files),
        sorts(b, files),
    ensures
        a == b,
        forall|v: int| 0 <= v < files.len() ==> #[trigger] a.contains(v),
{
    lemma_sortings_agree(a, b, files, files.len() as int);
    assert(a =~= b);
    assert forall|v: int| 0 <= v < files.len() implies #[trigger] a.contains(v) by {
        lemma_sorting_is_complete(a, files, v);
    }
}

/// The files in the order that `order` gives.
pub open spec fn in_order(order: Seq<int>, files: Seq<InputFile>) -> Seq<InputFile> {
    Seq::new(order.len(), |i: int| files[order[i]])
}

/// The files that two lists of paths lead to are those of the first list and then those of
/// the second.
proof fn lemma_files_of_both(a: Seq<Probe>, b: Seq<Probe>)
    ensures
        files_of_all(a + b) == files_of_all(a) + files_of_all(b),
    decreases b.len(),
{
    if b.len() == 0 {
        assert(a + b =~= a);
        assert(files_of_all(a) + files_of_all(b) =~= files_of_all(a));
    } else {
        let front = b.drop_last();
        lemma_files_of_both(a, front);
        assert((a + b).drop_last() =~= a + front);
        assert((a + b).last() == b.last());
        assert(files_of_all(a) + (files_of_all(front) + files_of(b.last())) =~= files_of_all(a)
            + files_of_all(front) + files_of(b.last()));
    }
}

/// Collecting two lists of inputs together gives what sorting the two results gives, also for
/// files with equal paths. `first`, `second` and `both` sort the files of the first list, of the
/// second and of both, and `merged` sorts the two results.
pub proof fn law_inputs_can_be_collected_in_parts(
    a: Seq<Probe>,
    b: Seq<Probe>,
    first: Seq<int>,
    second: Seq<int>,
    both: Seq<int>,
    merged: Seq<int>,
)
    requires
        sorts(first, files_of_all(a)),
        sorts(second, files_of_all(b)),
        sorts(both, files_of_all(a + b)),
        sorts(merged, in_order(first, files_of_all(a)) + in_order(second, files_of_all(b))),
    ensures
        in_order(both, files_of_all(a + b)) == in_order(
            merged,
            in_order(first, files_of_all(a)) + in_order(second, files_of_all(b)),
        ),
        ids_in_order(both, files_of_all(a + b)) == ids_in_order(
            merged,
            in_order(first, files_of_all(a)) + in_order(second, files_of_all(b)),
        ),
{
    lemma_files_of_both(a, b);
    let left = files_of_all(a);
    let right = files_of_all(b);
    let all = left + right;
    let results = in_order(first, left) + in_order(second, right);
    let n = left.len() as int;
    let places = Seq::new(
        merged.len(),
        |i: int|
            if merged[i] < n {
                first[merged[i]]
            } else {
                n + second[merged[i] - n]
            },
    );
    assert forall|i: int| 0 <= i < places.len() implies 0 <= #[trigger] places[i] < all.len()
        && all[places[i]] == results[merged[i]] by {
        let j = merged[i];
        assert(0 <= j < results.len());
        if j < n {
            assert(0 <= first[j] < n);
        } else {
            assert(0 <= second[j - n] < right.len());
        }
    }
    assert forall|i: int, j: int| 0 <= i < j < places.len() implies comes_before(
        all,
        #[trigger] places[i],
        #[trigger] places[j],
    ) by {
        let p = merged[i];
        let q = merged[j];
        assert(comes_before(results, p, q));
        assert(all[places[i]] == results[p] && all[places[j]] == results[q]);
        if path_order(results[p].parts@, results[q].parts@) == 0 {
            assert(p < q);
            if q < n {
                assert(comes_before(left, first[p], first[q]));
            } else if p >= n {
                assert(comes_before(right, second[p - n], second[q - n]));
            } else {
                assert(0 <= first[p] < n);
                assert(0 <= second[q - n]);
            }
        }
    }
    assert(sorts(places, all));
    law_sorting_is_unique(both, places, all);
    assert(in_order(both, all) =~= in_order(merged, results));
    assert(ids_in_order(both, all) =~= ids_in_order(merged, results)) by {
        assert forall|i: int| 0 <= i < both.len() implies #[trigger] ids_in_order(both, all)[i]
            == ids_in_order(merged, results)[i] by {
            assert(all[places[i]] == results[merged[i]]);
        }
    }
}

/// The number of files whose path comes before `pivot`.
spec fn count_before(files: Seq<InputFile>, pivot: Seq<PathPart>) -> int
    decreases files.len(),
{
    if files.len() == 0 {
        0
    } else {
        count_before(files.drop_last(), pivot) + if path_order(files.last().parts@, pivot) < 0 {
            1int
        } else {
            0int
        }
    }
}

/// The positions of the files whose path comes before `pivot`.
spec fn places_before(files: Seq<InputFile>, pivot: Seq<PathPart>) -> Set<int> {
    vstd::set_lib::set_int_range(0, files.len() as int).filter(
        |k: int| path_order(files[k].parts@, pivot) < 0,
    )
}

proof fn lemma_count_before_is_size(files: Seq<InputFile>, pivot: Seq<PathPart>)
    ensures
        places_before(files, pivot).finite(),
        places_before(files, pivot).len() == count_before(files, pivot),
    decreases files.len(),
{
    let n = files.len() as int;
    vstd::set_lib::lemma_int_range(0, n);
    if n == 0 {
        assert(places_before(files, pivot) =~= Set::empty());
    } else {
        let front = files.drop_last();
        lemma_count_before_is_size(front, pivot);
        assert forall|k: int| 0 <= k < n - 1 implies front[k] == files[k] by {}
        if path_order(files.last().parts@, pivot) < 0 {
            assert(places_before(files, pivot) =~= places_before(front, pivot).insert(n - 1));
        } else {
            assert(places_before(files, pivot) =~= places_before(front, pivot));
        }
    }
}

proof fn lemma_count_before_of_both(a: Seq<InputFile>, b: Seq<InputFile>, pivot: Seq<PathPart>)
    ensures
        count_before(a + b, pivot) == count_before(a, pivot) + count_before(b, pivot),
    decreases b.len(),
{
    if b.len() == 0 {
        assert(a + b =~= a);
    } else {
        assert((a + b).drop_last() =~= a + b.drop_last());
        assert((a + b).last() == b.last());
        lemma_count_before_of_both(a, b.drop_last(), pivot);
    }
}

/// Lists of the same paths in another order lead to as many files before `pivot`, and to as
/// many files in all.
proof fn lemma_count_before_of_permutation(a: Seq<Probe>, b: Seq<Probe>, pivot: Seq<PathPart>)
    requires
        a.to_multiset() == b.to_multiset(),
    ensures
        count_before(files_of_all(a), pivot) == count_before(files_of_all(b), pivot),
        files_of_all(a).len() == files_of_all(b).len(),
    decreases a.len(),
{
    a.to_multiset_ensures();
    b.to_multiset_ensures();
    if a.len() > 0 {
        let x = a.last();
        assert(a.contains(x));
        assert(b.to_multiset().count(x) > 0);
        assert(b.contains(x));
        let j = choose|j: int| 0 <= j < b.len() && b[j] == x;
        let front = b.take(j);
        let back = b.skip(j + 1);
        assert(a.remove(a.len() - 1) =~= a.drop_last());
        assert(b.remove(j) =~= front + back);
        lemma_count_before_of_permutation(a.drop_last(), front + back, pivot);
        lemma_files_of_both(front, back);
        lemma_count_before_of_both(files_of_all(front), files_of_all(back), pivot);
        assert(b =~= front.push(x) + back);
        lemma_files_of_both(front.push(x), back);
        assert(front.push(x).drop_last() =~= front);
        lemma_count_before_of_both(files_of_all(front), files_of(x), pivot);
        lemma_count_before_of_both(files_of_all(front.push(x)), files_of_all(back), pivot);
        lemma_count_before_of_both(files_of_all(a.drop_last()), files_of(x), pivot);
    } else {
        assert(b.len() == 0);
        assert(a =~= b);
    }
}

/// The file at place `i` of a sorting has at most `i` files before it.
proof fn lemma_few_before(order: Seq<int>, files: Seq<InputFile>, i: int)
    requires
        sorts(order, files),
        0 <= i < order.len(),
    ensures
        count_before(files, files[order[i]].parts@) <= i,
{
    let pivot = files[order[i]].parts@;
    lemma_count_before_is_size(files, pivot);
    let front = order.take(i);
    assert forall|k: int| places_before(files, pivot).contains(k) implies #[trigger] front
        .to_set().contains(k) by {
        lemma_sorting_is_complete(order, files, k);
        let j = choose|j: int| 0 <= j < order.len() && order[j] == k;
        if j >= i {
            law_paths_are_ordered(pivot, files[k].parts@, files[k].parts@);
            law_paths_are_ordered(pivot, pivot, pivot);
            if j > i {
                assert(comes_before(files, order[i], order[j]));
            }
        }
        assert(front[j] == k);
        assert(front.contains(k));
    }
    front.lemma_cardinality_of_set();
    vstd::set_lib::lemma_len_subset(places_before(files, pivot), front.to_set());
}

/// Where the file at place `i` of a sorting comes before `pivot`, so do more than `i` files.
proof fn lemma_many_before(order: Seq<int>, files: Seq<InputFile>, i: int, pivot: Seq<PathPart>)
    requires
        sorts(order, files),
        0 <= i < order.len(),
        path_order(files[order[i]].parts@, pivot) < 0,
    ensures
        count_before(files, pivot) > i,
{
    lemma_count_before_is_size(files, pivot);
    let front = order.take(i + 1);
    let last = files[order[i]].parts@;
    assert forall|k: int| #[trigger] front.to_set().contains(k) implies places_before(
        files,
        pivot,
    ).contains(k) by {
        let j = choose|j: int| 0 <= j < front.len() && front[j] == k;
        assert(order[j] == k);
        if j < i {
            assert(comes_before(files, order[j], order[i]));
        }
        law_paths_are_ordered(files[k].parts@, last, pivot);
        law_paths_are_ordered(pivot, files[k].parts@, last);
        law_paths_are_ordered(last, pivot, pivot);
    }
    assert forall|p: int, q: int| 0 <= p < front.len() && 0 <= q < front.len() && p
        != q implies front[p] != front[q] by {
        lemma_comes_before(files, order[p], order[q]);
        if p < q {
            assert(comes_before(files, order[p], order[q]));
        } else {
            assert(comes_before(files, order[q], order[p]));
        }
    }
    front.unique_seq_to_set();
    vstd::set_lib::lemma_len_subset(front.to_set(), places_before(files, pivot));
}

/// The order in which inputs are given does not matter, up to files with equal paths: at each
/// place of the two results stand files with equal paths.
pub proof fn law_order_of_inputs_does_not_matter(
    a: Seq<Probe>,
    b: Seq<Probe>,
    first: Seq<int>,
    second: Seq<int>,
    i: int,
)
    requires
        a.to_multiset() == b.to_multiset(),
        sorts(first, files_of_all(a)),
        sorts(second, files_of_all(b)),
        0 <= i < first.len(),
    ensures
        first.len() == second.len(),
        path_order(
            in_order(first, files_of_all(a))[i].parts@,
            in_order(second, files_of_all(b))[i].parts@,
        ) == 0,
{
    let left = files_of_all(a);
    let right = files_of_all(b);
    let p = left[first[i]].parts@;
    lemma_count_before_of_permutation(a, b, p);
    let q = right[second[i]].parts@;
    lemma_count_before_of_permutation(a, b, q);
    law_paths_are_ordered(p, q, q);
    if path_order(p, q) < 0 {
        lemma_many_before(first, left, i, q);
        lemma_few_before(second, right, i);
    } else if path_order(p, q) > 0 {
        lemma_many_before(second, right, i, p);
        lemma_few_before(first, left, i);
    }
}

/// Byte strings are compared from their start on: the first byte in which they differ decides,
/// and a string comes before those that it begins.
pub proof fn law_bytes_are_compared_from_the_start(
    common: Seq<u8>,
    x: u8,
    a: Seq<u8>,
    y: u8,
    b: Seq<u8>,
)
    ensures
        x < y ==> bytes_order(common + seq![x] + a, common + seq![y] + b) == -1,
        x > y ==> bytes_order(common + seq![x] + a, common + seq![y] + b) == 1,
        bytes_order(common, common) == 0,
        bytes_order(common, common + seq![x] + a) == -1,
        bytes_order(common + seq![x] + a, common) == 1,
    decreases common.len(),
{
    let left = common + seq![x] + a;
    let right = common + seq![y] + b;
    if common.len() > 0 {
        let rest = common.skip(1);
        law_bytes_are_compared_from_the_start(rest, x, a, y, b);
        assert(left.skip(1) =~= rest + seq![x] + a);
        assert(right.skip(1) =~= rest + seq![y] + b);
        assert(left[0] == common[0] && right[0] == common[0]);
    } else {
        assert(left[0] == x && right[0] == y);
    }
}

/// The kinds of prefixes, from the first to the last, and the order of two prefixes of one kind.
pub proof fn law_order_of_prefixes(
    a: Vec<u8>,
    b: Vec<u8>,
    c: Vec<u8>,
    d: Vec<u8>,
    x: u8,
    y: u8,
)
    ensures
        prefix_order(PathPrefix::Verbatim(a), PathPrefix::VerbatimUnc(b, c)) == -1,
        prefix_order(PathPrefix::VerbatimUnc(a, b), PathPrefix::VerbatimDisk(x)) == -1,
        prefix_order(PathPrefix::VerbatimDisk(x), PathPrefix::DeviceNs(a)) == -1,
        prefix_order(PathPrefix::DeviceNs(a), PathPrefix::Unc(b, c)) == -1,
        prefix_order(PathPrefix::Unc(a, b), PathPrefix::Disk(x)) == -1,
        prefix_order(PathPrefix::Verbatim(a), PathPrefix::Verbatim(b)) == bytes_order(a@, b@),
        prefix_order(PathPrefix::DeviceNs(a), PathPrefix::DeviceNs(b)) == bytes_order(a@, b@),
        prefix_order(PathPrefix::VerbatimUnc(a, b), PathPrefix::VerbatimUnc(c, d)) == (
        if bytes_order(a@, c@) == 0 {
            bytes_order(b@, d@)
        } else {
            bytes_order(a@, c@)
        }),
        prefix_order(PathPrefix::Unc(a, b), PathPrefix::Unc(c, d)) == (if bytes_order(a@, c@) == 0 {
            bytes_order(b@, d@)
        } else {
            bytes_order(a@, c@)
        }),
        x < y ==> prefix_order(PathPrefix::Disk(x), PathPrefix::Disk(y)) == -1,
        x < y ==> prefix_order(PathPrefix::VerbatimDisk(x), PathPrefix::VerbatimDisk(y)) == -1,
        prefix_order(PathPrefix::Disk(x), PathPrefix::Disk(x)) == 0,
        prefix_order(PathPrefix::VerbatimDisk(x), PathPrefix::VerbatimDisk(x)) == 0,
{
    assert(bytes_order(seq![x].skip(1), seq![x].skip(1)) == 0);
}

/// The kinds of parts, from the first to the last, and the order of two parts of one kind.
pub proof fn law_order_of_parts(p: PathPrefix, q: PathPrefix, a: Vec<u8>, b: Vec<u8>)
    ensures
        part_order(PathPart::Prefix(p), PathPart::RootDir) == -1,
        part_order(PathPart::RootDir, PathPart::CurDir) == -1,
        part_order(PathPart::CurDir, PathPart::ParentDir) == -1,
        part_order(PathPart::ParentDir, PathPart::Normal(a)) == -1,
        part_order(PathPart::Prefix(p), PathPart::Prefix(q)) == prefix_order(p, q),
        part_order(PathPart::Normal(a), PathPart::Normal(b)) == bytes_order(a@, b@),
        part_order(PathPart::RootDir, PathPart::RootDir) == 0,
        part_order(PathPart::CurDir, PathPart::CurDir) == 0,
        part_order(PathPart::ParentDir, PathPart::ParentDir) == 0,
{
}

/// Paths are compared part by part from their start on: the first part in which they differ
/// decides, and a path comes before those that it begins.
pub proof fn law_paths_are_compared_from_the_start(
    common: Seq<PathPart>,
    x: PathPart,
    a: Seq<PathPart>,
    y: PathPart,
    b: Seq<PathPart>,
)
    ensures
        part_order(x, y) != 0 ==> path_order(common + seq![x] + a, common + seq![y] + b)
            == part_order(x, y),
        path_order(common, common) == 0,
        path_order(common, common + seq![x] + a) == -1,
        path_order(common + seq![x] + a, common) == 1,
    decreases common.len(),
{
    let left = common + seq![x] + a;
    let right = common + seq![y] + b;
    if common.len() > 0 {
        let rest = common.skip(1);
        law_paths_are_compared_from_the_start(rest, x, a, y, b);
        assert(left.skip(1) =~= rest + seq![x] + a);
        assert(right.skip(1) =~= rest + seq![y] + b);
        assert(left[0] == common[0] && right[0] == common[0]);
        lemma_part_equals_itself(common[0]);
    } else {
        assert(left[0] == x && right[0] == y);
    }
}

proof fn lemma_part_equals_itself(part: PathPart)
    ensures
        part_order(part, part) == 0,
{
    match part {
        PathPart::Prefix(p) => {
            law_bytes_are_compared_from_the_start(p.name(), 0, seq![], 0, seq![]);
            law_bytes_are_compared_from_the_start(p.share(), 0, seq![], 0, seq![]);
        },
        PathPart::Normal(p) => {
            law_bytes_are_compared_from_the_start(p@, 0, seq![], 0, seq![]);
        },
        _ => {},
    }
}

/// The name of a picture ends in `.jpg` or in `.png`, and something stands before that.
pub proof fn law_names_of_pictures(front: Seq<char>, name: Seq<char>)
    requires
        front.len() > 0,
    ensures
        is_picture_name(front + ".jpg"@),
        is_picture_name(front + ".png"@),
        is_picture_name(name) ==> name.len() > 4 && (name.skip(name.len() - 4) == ".jpg"@
            || name.skip(name.len() - 4) == ".png"@),
{
    reveal_strlit("jpg");
    reveal_strlit("png");
    reveal_strlit(".jpg");
    reveal_strlit(".png");
    assert(!"jpg"@.contains('.'));
    assert(!"png"@.contains('.'));
    law_name_is_split_at_its_last_dot(front, "jpg"@);
    law_name_is_split_at_its_last_dot(front, "png"@);
    assert(front + seq!['.'] + "jpg"@ =~= front + ".jpg"@);
    assert(front + seq!['.'] + "png"@ =~= front + ".png"@);
    if is_picture_name(name) {
        law_name_is_stem_and_extension(name);
        let ext = extension_of(name)->0;
        let stem = stem_of(name);
        assert(name == stem + seq!['.'] + ext);
        assert(name.skip(name.len() - 4) =~= seq!['.'] + ext);
        assert(seq!['.'] + "jpg"@ =~= ".jpg"@);
        assert(seq!['.'] + "png"@ =~= ".png"@);
        if stem.len() == 0 {
            assert(name =~= seq!['.'] + ext);
            law_name_without_a_dot_is_its_stem(name);
        }
    }
}

/// The pictures among entries are found entry by entry: one whose name is that of a picture is
/// taken, any other is left out, and their order is kept.
pub proof fn law_pictures_are_taken_one_by_one(
    a: Seq<InputFile>,
    b: Seq<InputFile>,
    file: InputFile,
)
    ensures
        pictures_among(Seq::empty()) == Seq::<InputFile>::empty(),
        is_picture_name(file.name@) ==> pictures_among(seq![file]) == seq![file],
        !is_picture_name(file.name@) ==> pictures_among(seq![file]) == Seq::<InputFile>::empty(),
        pictures_among(a + b) == pictures_among(a) + pictures_among(b),
    decreases b.len(),
{
    let single = seq![file];
    assert(single.drop_last() =~= Seq::empty());
    assert(pictures_among(Seq::empty()).push(file) =~= seq![file]);
    if b.len() == 0 {
        assert(a + b =~= a);
        assert(pictures_among(a) + pictures_among(b) =~= pictures_among(a));
    } else {
        law_pictures_are_taken_one_by_one(a, b.drop_last(), file);
        assert((a + b).drop_last() =~= a + b.drop_last());
        assert((a + b).last() == b.last());
        assert((pictures_among(a) + pictures_among(b.drop_last())).push(b.last()) =~= pictures_among(
            a,
        ) + pictures_among(b.drop_last()).push(b.last()));
    }
}

/// The files that paths lead to are listed path by path: of a directory the pictures, of a file
/// the file itself, whatever its name, and of any other path none.
pub proof fn law_files_are_listed_path_by_path(
    a: Seq<Probe>,
    b: Seq<Probe>,
    entries: Vec<InputFile>,
    file: InputFile,
)
    ensures
        files_of_all(Seq::empty()) == Seq::<InputFile>::empty(),
        files_of_all(seq![Probe::Directory(entries)]) == pictures_among(entries@),
        files_of_all(seq![Probe::File(file)]) == seq![file],
        files_of_all(seq![Probe::Missing]) == Seq::<InputFile>::empty(),
        files_of_all(a + b) == files_of_all(a) + files_of_all(b),
{
    lemma_files_of_both(a, b);
    lemma_files_of_one(Probe::Directory(entries));
    lemma_files_of_one(Probe::File(file));
    lemma_files_of_one(Probe::Missing);
}

proof fn lemma_files_of_one(probe: Probe)
    ensures
        files_of_all(seq![probe]) == files_of(probe),
{
    let single = seq![probe];
    assert(single.drop_last() =~= Seq::empty());
    assert(files_of_all(single.drop_last()) =~= Seq::<InputFile>::empty());
    assert(files_of_all(single) == files_of_all(single.drop_last()) + files_of(single.last()));
    assert(Seq::<InputFile>::empty() + files_of(probe) =~= files_of(probe));
}

/// A sorting puts no file behind one whose path comes after its own, keeps the order of files
/// with equal paths, and names each file by its number.
pub proof fn law_sorted_files_ascend(order: Seq<int>, files: Seq<InputFile>, i: int, j: int)
    requires
        sorts(order, files),
        0 <= i < j < order.len(),
    ensures
        order.len() == files.len(),
        0 <= order[i] < files.len(),
        0 <= order[j] < files.len(),
        order[i] != order[j],
        path_order(files[order[i]].parts@, files[order[j]].parts@) <= 0,
        path_order(files[order[i]].parts@, files[order[j]].parts@) == 0 ==> order[i] < order[j],
        ids_in_order(order, files).len() == files.len(),
        ids_in_order(order, files)[i] == files[order[i]].id,
        ids_in_order(order, files)[j] == files[order[j]].id,
{
    assert(comes_before(files, order[i], order[j]));
    lemma_comes_before(files, order[i], order[j]);
}

/// Every order of the positions of files that never descends, and in which files with equal
/// paths keep their order, is a sorting.
pub proof fn law_ascending_order_is_a_sorting(order: Seq<int>, files: Seq<InputFile>)
    requires
        order.len() == files.len(),
        forall|i: int| 0 <= i < order.len() ==> 0 <= #[trigger] order[i] < files.len(),
        forall|i: int, j: int|
            0 <= i < j < order.len() ==> {
                let place = path_order(
                    files[#[trigger] order[i]].parts@,
                    files[#[trigger] order[j]].parts@,
                );
                place < 0 || (place == 0 && order[i] < order[j])
            },
    ensures
        sorts(order, files),
{
}

/// Parts that are equal in the order of parts do not decide between paths.
pub proof fn law_equal_parts_do_not_decide(
    x: PathPart,
    a: Seq<PathPart>,
    y: PathPart,
    b: Seq<PathPart>,
)
    requires
        part_order(x, y) == 0,
    ensures
        path_order(seq![x] + a, seq![y] + b) == path_order(a, b),
{
    assert((seq![x] + a).skip(1) =~= a);
    assert((seq![y] + b).skip(1) =~= b);
}

/// A sorting has a place for each file and names the files by their numbers.
pub proof fn law_sorted_files_are_named_by_their_numbers(
    order: Seq<int>,
    files: Seq<InputFile>,
    i: int,
)
    requires
        sorts(order, files),
        0 <= i < files.len(),
    ensures
        order.len() == files.len(),
        0 <= order[i] < files.len(),
        ids_in_order(order, files).len() == files.len(),
        ids_in_order(order, files)[i] == files[order[i]].id,
{
}

} // verus!
