//! The files of a corpus directory: which of them a corpus takes, and in what
//! order.
//!
//! A file name is a string of bytes, as the file system has it. It need not be
//! text.

use vstd::prelude::*;
use vstd::relations::{sorted_by, total_ordering};
use vstd::seq_lib::{group_to_multiset_ensures, lemma_sorted_unique};
use vstd::slice::slice_subrange;
use vstd::string::StringExecFns;
use vstd::utf8::{decode_utf8, encode_utf8, is_ascii_chars, valid_utf8};
use vstd::utf8::{
    decode_utf8_encode_utf8, encode_utf8_decode_utf8, encode_utf8_valid_utf8,
    is_ascii_chars_encode_utf8,
};
use crate::decode::same_bytes;

verus! {

/// The byte that sets the extension of a file name off.
pub const DOT: u8 = 0x2E;

/// A file of a directory: its name, without the directory, and what it holds,
/// if it was read.
pub struct DirFile {
    pub name: Vec<u8>,
    pub bytes: Option<Vec<u8>>,
}

/// The kinds of file that a corpus can be made of.
#[derive(Clone, Copy, Debug, PartialEq, Eq, Structural)]
pub enum FileKind {
    /// PNG images: `.png`.
    Png,
    /// TIFF images: `.tif` or `.tiff`.
    Tiff,
}

/// What there is to know of a file of a directory.
pub struct FileText {
    pub name: Seq<u8>,
    pub bytes: Option<Seq<u8>>,
}

impl View for DirFile {
    type V = FileText;

    open spec fn view(&self) -> FileText {
        FileText {
            name: self.name@,
            bytes: match self.bytes {
                None => None,
                Some(bytes) => Some(bytes@),
            },
        }
    }
}

/// What there is to know of each file.
pub open spec fn file_texts(files: Seq<DirFile>) -> Seq<FileText> {
    Seq::new(files.len(), |i: int| files[i]@)
}

/// The names of the files.
pub open spec fn names(files: Seq<FileText>) -> Seq<Seq<u8>> {
    Seq::new(files.len(), |i: int| files[i].name)
}

/// Where the last dot in a name is.
pub open spec fn last_dot(name: Seq<u8>) -> Option<int>
    decreases name.len(),
{
    if name.len() == 0 {
        None
    } else if name.last() == DOT {
        Some(name.len() - 1)
    } else {
        last_dot(name.drop_last())
    }
}

/// Where the extension of a name is set off: at the last dot, unless the name
/// starts with it.
pub open spec fn cut(name: Seq<u8>) -> Option<int> {
    match last_dot(name) {
        Some(i) if i > 0 => Some(i),
        _ => None,
    }
}

/// The extension of a file name.
pub open spec fn extension(name: Seq<u8>) -> Option<Seq<u8>> {
    match cut(name) {
        None => None,
        Some(i) => Some(name.skip(i + 1)),
    }
}

/// A file name without its extension.
pub open spec fn stem(name: Seq<u8>) -> Seq<u8> {
    match cut(name) {
        None => name,
        Some(i) => name.take(i),
    }
}

/// The stem of a file name as text, or `fallback` where it is not text.
pub open spec fn stem_text(name: Seq<u8>, fallback: Seq<char>) -> Seq<char> {
    if valid_utf8(stem(name)) {
        decode_utf8(stem(name))
    } else {
        fallback
    }
}

impl FileKind {
    /// Whether a file with this name is of this kind.
    pub open spec fn takes(self, name: Seq<u8>) -> bool {
        match self {
            FileKind::Png => extension(name) == Some(encode_utf8("png"@)),
            FileKind::Tiff => {
                ||| extension(name) == Some(encode_utf8("tif"@))
                ||| extension(name) == Some(encode_utf8("tiff"@))
            },
        }
    }
}

/// Whether `a` equals `b` or comes before it, byte by byte; what is cut short
/// comes first.
pub open spec fn up_to(a: Seq<u8>, b: Seq<u8>) -> bool
    decreases a.len(),
{
    ||| a.len() == 0
    ||| {
        &&& b.len() > 0
        &&& a[0] < b[0] || (a[0] == b[0] && up_to(a.skip(1), b.skip(1)))
    }
}

/// The order in which files are taken: by name, and as they come where names
/// are the same.
pub open spec fn name_order(names: Seq<Seq<u8>>) -> spec_fn(int, int) -> bool {
    |i: int, j: int|
        if names[i] == names[j] {
            i <= j
        } else {
            up_to(names[i], names[j])
        }
}

/// The files of the given kind, by their index, in the order in which they are
/// taken.
pub open spec fn listing(names: Seq<Seq<u8>>, kind: FileKind) -> Seq<int> {
    of_kind(names, kind, names.len()).sort_by(name_order(names))
}

/// Those of the first `n` files that are of the given kind.
pub open spec fn of_kind(names: Seq<Seq<u8>>, kind: FileKind, n: nat) -> Seq<int> {
    Seq::new(n, |i: int| i).filter(|i: int| kind.takes(names[i]))
}

/// The numbers in `v`.
pub open spec fn indices(v: Seq<usize>) -> Seq<int> {
    Seq::new(v.len(), |i: int| v[i] as int)
}

/// Where the extension of a name is set off.
fn find_cut(name: &[u8]) -> (at: Option<usize>)
    ensures
        match at {
            None => cut(name@) is None,
            Some(i) => cut(name@) == Some(i as int) && i < name.len(),
        },
{
    let mut i: usize = name.len();
    assert(name@.take(i as int) =~= name@);
    while i > 0
        invariant
            i <= name@.len(),
            last_dot(name@) == last_dot(name@.take(i as int)),
        decreases i,
    {
        assert(name@.take(i as int).drop_last() =~= name@.take(i - 1));
        i -= 1;
        if name[i] == DOT {
            return if i > 0 {
                Some(i)
            } else {
                None
            };
        }
    }
    None
}

/// Whether a file with this name is of this kind.
pub fn takes(kind: FileKind, name: &[u8]) -> (taken: bool)
    ensures
        taken == kind.takes(name@),
{
    match find_cut(name) {
        None => false,
        Some(i) => {
            let extension = slice_subrange(name, i + 1, name.len());
            assert(extension@ =~= name@.skip(i + 1));
            match kind {
                FileKind::Png => same_bytes(extension, "png".as_bytes()),
                FileKind::Tiff => same_bytes(extension, "tif".as_bytes()) || same_bytes(
                    extension,
                    "tiff".as_bytes(),
                ),
            }
        },
    }
}

/// Calls `std::str::from_utf8`, which gives the text that the bytes encode, if
/// they are UTF-8.
#[verifier::external_body]
fn text_of(bytes: &[u8]) -> (text: Option<&str>)
    ensures
        text is Some == valid_utf8(bytes@),
        text is Some ==> text->Some_0@ == decode_utf8(bytes@),
{
    std::str::from_utf8(bytes).ok()
}

/// The stem of a file name as text, or `fallback` where it is not text.
pub fn file_stem(name: &[u8], fallback: &str) -> (text: String)
    ensures
        text@ == stem_text(name@, fallback@),
{
    let end: usize = match find_cut(name) {
        None => name.len(),
        Some(i) => i,
    };
    let bytes = slice_subrange(name, 0, end);
    assert(bytes@ =~= stem(name@));
    match text_of(bytes) {
        Some(text) => text.to_owned(),
        None => fallback.to_owned(),
    }
}

/// The name of an input of a corpus: the tag of the corpus, a slash, and the
/// name of the input within it.
pub open spec fn tagged(tag_prefix: Seq<char>, name: Seq<char>) -> Seq<char> {
    tag_prefix + "/"@ + name
}

/// Calls `String::leak`, which hands out the text of the string for as long as
/// the program runs.
#[verifier::external_body]
fn leak(text: String) -> (leaked: &'static str)
    ensures
        leaked@ == text@,
{
    text.leak()
}

/// The name of the input that a corpus makes of a file. It is kept for as long
/// as the program runs.
pub fn input_name(tag_prefix: &str, file_name: &[u8], fallback: &str) -> (name: &'static str)
    ensures
        name@ == tagged(tag_prefix@, stem_text(file_name@, fallback@)),
{
    let stem = file_stem(file_name, fallback);
    let mut name: String = tag_prefix.to_owned();
    name.append("/");
    name.append(stem.as_str());
    leak(name)
}

/// Whether `a` equals `b` or comes before it.
fn is_up_to(a: &[u8], b: &[u8]) -> (yes: bool)
    ensures
        yes == up_to(a@, b@),
{
    let mut i: usize = 0;
    assert(a@.skip(0) =~= a@);
    assert(b@.skip(0) =~= b@);
    while i < a.len()
        invariant
            i <= a@.len(),
            i <= b@.len(),
            up_to(a@, b@) == up_to(a@.skip(i as int), b@.skip(i as int)),
        decreases a@.len() - i,
    {
        if i == b.len() {
            return false;
        }
        if a[i] != b[i] {
            return a[i] < b[i];
        }
        assert(a@.skip(i as int).skip(1) =~= a@.skip(i + 1));
        assert(b@.skip(i as int).skip(1) =~= b@.skip(i + 1));
        i += 1;
    }
    true
}

/// The files of the given kind, by their index, in the order in which they are
/// taken.
#[verifier::rlimit(60)]
#[verifier::spinoff_prover]
pub fn list_files(files: &Vec<DirFile>, kind: FileKind) -> (order: Vec<usize>)
    ensures
        indices(order@) == listing(names(file_texts(files@)), kind),
        order@.len() == listing(names(file_texts(files@)), kind).len(),
        forall|k: int|
            0 <= k < order@.len() ==> #[trigger] order@[k] == listing(
                names(file_texts(files@)),
                kind,
            )[k],
        forall|k: int| 0 <= k < order@.len() ==> #[trigger] order@[k] < files@.len(),
{
    let ghost all = names(file_texts(files@));
    let ghost leq = name_order(all);
    proof {
        law_names_are_totally_ordered(all);
        reveal(Seq::filter);
    }
    let mut order: Vec<usize> = Vec::new();
    let mut k: usize = 0;
    assert(indices(order@) =~= of_kind(all, kind, 0));
    while k < files.len()
        invariant
            k <= files@.len(),
            all == names(file_texts(files@)),
            leq == name_order(all),
            total_ordering(leq),
            sorted_by(indices(order@), leq),
            indices(order@).to_multiset() == of_kind(all, kind, k as nat).to_multiset(),
            forall|q: int| 0 <= q < order@.len() ==> #[trigger] order@[q] < k,
        decreases files@.len() - k,
    {
        let ghost before = order@;
        proof {
            lemma_one_file_more(all, kind, k as nat);
        }
        if takes(kind, files[k].name.as_slice()) {
            let mut p: usize = order.len();
            while p > 0 && !is_up_to(files[order[p - 1]].name.as_slice(), files[k].name.as_slice())
                invariant
                    p <= order@.len(),
                    k < files@.len(),
                    order@ == before,
                    all == names(file_texts(files@)),
                    leq == name_order(all),
                    forall|q: int| 0 <= q < order@.len() ==> #[trigger] order@[q] < k,
                    forall|q: int|
                        p <= q < order@.len() ==> !#[trigger] leq(order@[q] as int, k as int),
                decreases p,
            {
                assert(!leq(order@[p - 1] as int, k as int)) by {
                    law_up_to_is_an_order(all[k as int], all[k as int], all[k as int]);
                }
                p -= 1;
            }
            order.insert(p, k);
            proof {
                let old_indices = indices(before);
                assert(indices(order@) =~= old_indices.insert(p as int, k as int));
                if p > 0 {
                    law_up_to_is_an_order(all[k as int], all[k as int], all[k as int]);
                    assert(leq(before[p - 1] as int, k as int));
                }
                lemma_insert_keeps_order(old_indices, leq, p as int, k as int);
                broadcast use group_to_multiset_ensures;

            }
        }
        k += 1;
    }
    proof {
        let found = of_kind(all, kind, all.len());
        found.lemma_sort_by_ensures(leq);
        lemma_sorted_unique(indices(order@), found.sort_by(leq), leq);
        assert forall|k: int| 0 <= k < order@.len() implies #[trigger] order@[k] == listing(
            all,
            kind,
        )[k] by {
            assert(indices(order@)[k] == order@[k]);
        }
    }
    order
}

/// What one file more adds to the files of a kind.
proof fn lemma_one_file_more(names: Seq<Seq<u8>>, kind: FileKind, k: nat)
    ensures
        of_kind(names, kind, k + 1) == if kind.takes(names[k as int]) {
            of_kind(names, kind, k).push(k as int)
        } else {
            of_kind(names, kind, k)
        },
{
    reveal(Seq::filter);
    assert(Seq::new(k + 1, |i: int| i).drop_last() =~= Seq::new(k, |i: int| i));
}

/// A sequence in order stays in order when an item comes in behind one that is
/// not after it and before those that are.
proof fn lemma_insert_keeps_order(s: Seq<int>, leq: spec_fn(int, int) -> bool, p: int, x: int)
    requires
        total_ordering(leq),
        sorted_by(s, leq),
        0 <= p <= s.len(),
        p > 0 ==> leq(s[p - 1], x),
        forall|q: int| p <= q < s.len() ==> !#[trigger] leq(s[q], x),
    ensures
        sorted_by(s.insert(p, x), leq),
{
    let t = s.insert(p, x);
    assert forall|i: int, j: int| 0 <= i < j < t.len() implies #[trigger] leq(t[i], t[j]) by {
        if j == p {
            if i < p - 1 {
                assert(leq(s[i], s[p - 1]));
            }
            assert(leq(s[i], x));
        } else if i == p {
            assert(!leq(s[j - 1], x));
            assert(leq(x, s[j - 1]));
        } else {
            let a = if i < p {
                i
            } else {
                i - 1
            };
            let b = if j < p {
                j
            } else {
                j - 1
            };
            assert(leq(s[a], s[b]));
        }
    }
}

/// [`up_to`] orders all names: each is up to itself, of two one is up to the
/// other, two that are up to each other are the same, and what is up to `b` is
/// up to all that `b` is up to.
pub proof fn law_up_to_is_an_order(a: Seq<u8>, b: Seq<u8>, c: Seq<u8>)
    ensures
        up_to(a, a),
        up_to(a, b) || up_to(b, a),
        up_to(a, b) && up_to(b, a) ==> a == b,
        up_to(a, b) && up_to(b, c) ==> up_to(a, c),
    decreases a.len() + b.len() + c.len(),
{
    if a.len() > 0 && b.len() > 0 && c.len() > 0 {
        law_up_to_is_an_order(a.skip(1), b.skip(1), c.skip(1));
    } else if a.len() > 0 && b.len() > 0 {
        law_up_to_is_an_order(a.skip(1), b.skip(1), c);
    } else if a.len() > 0 {
        law_up_to_is_an_order(a.skip(1), b, c);
    }
    if a.len() > 0 && b.len() > 0 && a[0] == b[0] && a.skip(1) == b.skip(1) {
        assert(a =~= seq![a[0]] + a.skip(1));
        assert(b =~= seq![b[0]] + b.skip(1));
    }
    if a.len() == 0 && b.len() == 0 {
        assert(a =~= b);
    }
}

/// The order in which files are taken leaves no choice.
pub proof fn law_names_are_totally_ordered(names: Seq<Seq<u8>>)
    ensures
        total_ordering(name_order(names)),
{
    let leq = name_order(names);
    assert forall|x: int, y: int| #[trigger] leq(x, y) && #[trigger] leq(y, x) implies x == y by {
        law_up_to_is_an_order(names[x], names[y], names[x]);
    }
    assert forall|x: int, y: int| #[trigger] leq(x, y) || #[trigger] leq(y, x) by {
        law_up_to_is_an_order(names[x], names[y], names[x]);
    }
    assert forall|x: int, y: int, z: int| #[trigger]
        leq(x, y) && #[trigger] leq(y, z) implies leq(x, z) by {
        law_up_to_is_an_order(names[x], names[y], names[z]);
        law_up_to_is_an_order(names[x], names[y], names[x]);
    }
}

/// A listing holds every file of the kind, none of another kind and none twice,
/// and each file in it comes before those behind it.
pub proof fn law_listing_is_complete_and_in_order(names: Seq<Seq<u8>>, kind: FileKind)
    ensures
        forall|i: int|
            #[trigger] listing(names, kind).contains(i) <==> 0 <= i < names.len() && kind.takes(
                names[i],
            ),
        forall|p: int, q: int|
            0 <= p < q < listing(names, kind).len() ==> {
                let i = #[trigger] listing(names, kind)[p];
                let j = #[trigger] listing(names, kind)[q];
                i != j && up_to(names[i], names[j])
            },
{
    let leq = name_order(names);
    let found = of_kind(names, kind, names.len());
    let listed = listing(names, kind);
    law_names_are_totally_ordered(names);
    found.lemma_sort_by_ensures(leq);
    lemma_of_kind_ascends(names, kind, names.len());
    broadcast use group_to_multiset_ensures;

    assert forall|i: int| #[trigger] listed.contains(i) <==> found.contains(i) by {
        assert(listed.to_multiset().count(i) == found.to_multiset().count(i));
    }
    found.lemma_multiset_has_no_duplicates();
    listed.lemma_multiset_has_no_duplicates_conv();
    assert forall|p: int, q: int| 0 <= p < q < listed.len() implies {
        let i = #[trigger] listed[p];
        let j = #[trigger] listed[q];
        i != j && up_to(names[i], names[j])
    } by {
        assert(leq(listed[p], listed[q]));
        law_up_to_is_an_order(names[listed[p]], names[listed[p]], names[listed[p]]);
    }
}

/// The files of a kind among the first `n`, as they come: every one, once.
proof fn lemma_of_kind_ascends(names: Seq<Seq<u8>>, kind: FileKind, n: nat)
    ensures
        forall|i: int|
            #[trigger] of_kind(names, kind, n).contains(i) <==> 0 <= i < n && kind.takes(names[i]),
        of_kind(names, kind, n).no_duplicates(),
    decreases n,
{
    if n == 0 {
        reveal(Seq::filter);
    } else {
        let m = (n - 1) as nat;
        lemma_of_kind_ascends(names, kind, m);
        lemma_one_file_more(names, kind, m);
        let shorter = of_kind(names, kind, m);
        let longer = of_kind(names, kind, n);
        assert forall|i: int| #[trigger] longer.contains(i) <==> 0 <= i < n && kind.takes(
            names[i],
        ) by {
            if kind.takes(names[m as int]) {
                assert(longer[shorter.len() as int] == m);
                if shorter.contains(i) {
                    let q = choose|q: int| 0 <= q < shorter.len() && shorter[q] == i;
                    assert(longer[q] == i);
                }
                if longer.contains(i) && i != m {
                    let q = choose|q: int| 0 <= q < longer.len() && longer[q] == i;
                    assert(shorter[q] == i);
                }
            }
        }
        assert(!shorter.contains(m as int));
        assert forall|p: int, q: int|
            0 <= p < longer.len() && 0 <= q < longer.len() && p != q implies longer[p]
            != longer[q] by {
            if kind.takes(names[m as int]) {
                assert(p < shorter.len() ==> shorter.contains(longer[p]));
                assert(q < shorter.len() ==> shorter.contains(longer[q]));
            }
        }
    }
}

/// Whether two lists are lists of one directory: they hold the same files, none
/// of which shares its name with another.
pub open spec fn same_directory(a: Seq<FileText>, b: Seq<FileText>) -> bool {
    &&& names(a).no_duplicates()
    &&& names(b).no_duplicates()
    &&& forall|f: FileText| #[trigger] a.contains(f) <==> b.contains(f)
}

/// The listing of a directory does not depend on the order in which the
/// directory was read: at each place of it stands the same file.
pub proof fn law_listing_ignores_directory_order(
    a: Seq<FileText>,
    b: Seq<FileText>,
    kind: FileKind,
)
    requires
        same_directory(a, b),
    ensures
        listing(names(a), kind).len() == listing(names(b), kind).len(),
        forall|k: int|
            0 <= k < listing(names(a), kind).len() ==> a[#[trigger] listing(names(a), kind)[k]]
                == b[listing(names(b), kind)[k]],
{
    let by_name = |x: Seq<u8>, y: Seq<u8>| up_to(x, y);
    assert(total_ordering(by_name)) by {
        assert forall|x: Seq<u8>, y: Seq<u8>| #[trigger] by_name(x, y) && #[trigger] by_name(y, x)
            implies x == y by {
            law_up_to_is_an_order(x, y, x);
        }
        assert forall|x: Seq<u8>, y: Seq<u8>| #[trigger] by_name(x, y) || #[trigger] by_name(
            y,
            x,
        ) by {
            law_up_to_is_an_order(x, y, x);
        }
        assert forall|x: Seq<u8>, y: Seq<u8>, z: Seq<u8>| #[trigger]
            by_name(x, y) && #[trigger] by_name(y, z) implies by_name(x, z) by {
            law_up_to_is_an_order(x, y, z);
        }
        assert forall|x: Seq<u8>| #[trigger] by_name(x, x) by {
            law_up_to_is_an_order(x, x, x);
        }
    }
    let listed_a = listed_names(a, kind);
    let listed_b = listed_names(b, kind);
    lemma_listed_names(a, b, kind);
    lemma_listed_names(b, a, kind);
    listed_a.lemma_multiset_has_no_duplicates();
    listed_b.lemma_multiset_has_no_duplicates();
    assert(listed_a.to_multiset() =~= listed_b.to_multiset()) by {
        broadcast use group_to_multiset_ensures;

        assert forall|n: Seq<u8>| #[trigger] listed_a.to_multiset().count(n)
            == listed_b.to_multiset().count(n) by {
            assert(listed_a.contains(n) <==> listed_b.contains(n));
        }
    }
    lemma_sorted_unique(listed_a, listed_b, by_name);
    assert forall|k: int| 0 <= k < listing(names(a), kind).len() implies a[#[trigger] listing(
        names(a),
        kind,
    )[k]] == b[listing(names(b), kind)[k]] by {
        let i = listing(names(a), kind)[k];
        let j = listing(names(b), kind)[k];
        law_listing_is_complete_and_in_order(names(a), kind);
        law_listing_is_complete_and_in_order(names(b), kind);
        assert(listing(names(a), kind).contains(i));
        assert(listing(names(b), kind).contains(j));
        assert(listed_a[k] == listed_b[k]);
        assert(a.contains(a[i]));
        let q = choose|q: int| 0 <= q < b.len() && b[q] == a[i];
        assert(names(b)[q] == names(b)[j]);
    }
}

/// The names of the files of a kind, in the order in which they are taken.
spec fn listed_names(files: Seq<FileText>, kind: FileKind) -> Seq<Seq<u8>> {
    let order = listing(names(files), kind);
    Seq::new(order.len(), |k: int| names(files)[order[k]])
}

proof fn lemma_listed_names(a: Seq<FileText>, b: Seq<FileText>, kind: FileKind)
    requires
        same_directory(a, b),
    ensures
        sorted_by(listed_names(a, kind), |x: Seq<u8>, y: Seq<u8>| up_to(x, y)),
        listed_names(a, kind).no_duplicates(),
        forall|n: Seq<u8>|
            #[trigger] listed_names(a, kind).contains(n) ==> listed_names(b, kind).contains(n),
{
    let order = listing(names(a), kind);
    let listed = listed_names(a, kind);
    law_listing_is_complete_and_in_order(names(a), kind);
    law_listing_is_complete_and_in_order(names(b), kind);
    assert forall|p: int, q: int| 0 <= p < q < order.len() implies listed[p] != listed[q] && up_to(
        listed[p],
        listed[q],
    ) by {
        assert(order.contains(order[p]));
        assert(order.contains(order[q]));
        assert(order[p] != order[q]);
    }
    assert forall|n: Seq<u8>| #[trigger] listed.contains(n) implies listed_names(
        b,
        kind,
    ).contains(n) by {
        let k = choose|k: int| 0 <= k < listed.len() && listed[k] == n;
        let i = order[k];
        assert(order.contains(i));
        assert(a.contains(a[i]));
        let j = choose|j: int| 0 <= j < b.len() && b[j] == a[i];
        assert(names(b)[j] == n);
        let other = listing(names(b), kind);
        assert(other.contains(j));
        let m = choose|m: int| 0 <= m < other.len() && other[m] == j;
        assert(listed_names(b, kind)[m] == n);
    }
}

/// Two sequences whose items are mapped alike, place by place, are mapped to
/// the same.
pub(crate) proof fn lemma_mapped_alike<A, B, C>(
    s: Seq<A>,
    f: spec_fn(A) -> Option<C>,
    t: Seq<B>,
    g: spec_fn(B) -> Option<C>,
)
    requires
        s.len() == t.len(),
        forall|k: int| 0 <= k < s.len() ==> f(#[trigger] s[k]) == g(t[k]),
    ensures
        s.filter_map(f) == t.filter_map(g),
    decreases s.len(),
{
    if s.len() > 0 {
        assert forall|k: int| 0 <= k < s.len() - 1 implies f(#[trigger] s.drop_last()[k]) == g(
            t.drop_last()[k],
        ) by {
            assert(f(s[k]) == g(t[k]));
        }
        lemma_mapped_alike(s.drop_last(), f, t.drop_last(), g);
        assert(f(s[s.len() - 1]) == g(t[s.len() - 1]));
    }
}

/// What a prefix is mapped to comes first in what the whole is mapped to.
pub(crate) proof fn lemma_prefix_is_mapped_first<A, B>(s: Seq<A>, f: spec_fn(A) -> Option<B>, k: int)
    requires
        0 <= k <= s.len(),
    ensures
        s.take(k).filter_map(f).is_prefix_of(s.filter_map(f)),
        s.filter_map(f).len() - s.take(k).filter_map(f).len() <= s.len() - k,
    decreases s.len() - k,
{
    if k < s.len() {
        s.lemma_filter_map_take_succ(f, k);
        lemma_prefix_is_mapped_first(s, f, k + 1);
    } else {
        assert(s.take(k) =~= s);
    }
}

/// An item that is mapped to nothing can be left out.
pub(crate) proof fn lemma_unmapped_item<A, B>(s: Seq<A>, f: spec_fn(A) -> Option<B>, p: int)
    requires
        0 <= p < s.len(),
        f(s[p]) is None,
    ensures
        s.remove(p).filter_map(f) == s.filter_map(f),
    decreases s.len(),
{
    let rest = s.remove(p);
    if p == s.len() - 1 {
        assert(rest =~= s.drop_last());
    } else {
        lemma_unmapped_item(s.drop_last(), f, p);
        assert(rest.drop_last() =~= s.drop_last().remove(p));
        assert(rest.last() == s.last());
    }
}

/// A file put at the end of a directory comes into the listing in one place, if
/// it is of the kind; the others stay as they were.
#[verifier::rlimit(60)]
#[verifier::spinoff_prover]
pub(crate) proof fn lemma_listing_of_one_more(files: Seq<FileText>, file: FileText, kind: FileKind)
    ensures
        ({
            let before = listing(names(files), kind);
            let after = listing(names(files.push(file)), kind);
            if kind.takes(file.name) {
                exists|p: int|
                    0 <= p < after.len() && #[trigger] after[p] == files.len() && before
                        == after.remove(p)
            } else {
                before == after
            }
        }),
{
    let few = names(files);
    let many = names(files.push(file));
    let n = files.len();
    let leq = name_order(few);
    let leq_many = name_order(many);
    let found = of_kind(few, kind, n);
    let found_many = of_kind(many, kind, n + 1);
    let before = listing(few, kind);
    let after = listing(many, kind);
    law_names_are_totally_ordered(few);
    law_names_are_totally_ordered(many);
    found.lemma_sort_by_ensures(leq);
    found_many.lemma_sort_by_ensures(leq_many);
    law_listing_is_complete_and_in_order(few, kind);
    law_listing_is_complete_and_in_order(many, kind);
    lemma_of_kind_of_prefix(few, many, kind, n);
    lemma_one_file_more(many, kind, n);
    assert(many[n as int] == file.name);
    broadcast use group_to_multiset_ensures;

    let others = if kind.takes(file.name) {
        assert(after.contains(n as int));
        let p = choose|p: int| 0 <= p < after.len() && after[p] == n;
        assert(after.remove(p).to_multiset() =~= found.to_multiset());
        after.remove(p)
    } else {
        after
    };
    assert(others.to_multiset() == before.to_multiset());
    assert forall|p: int, q: int| 0 <= p < q < others.len() implies #[trigger] leq(
        others[p],
        others[q],
    ) by {
        assert(others.contains(others[p]));
        assert(others.contains(others[q]));
        assert(others.to_multiset().count(others[p]) == before.to_multiset().count(others[p]));
        assert(others.to_multiset().count(others[q]) == before.to_multiset().count(others[q]));
        assert(before.contains(others[p]));
        assert(before.contains(others[q]));
        assert(leq_many(others[p], others[q]));
    }
    lemma_sorted_unique(others, before, leq);
}

proof fn lemma_of_kind_of_prefix(few: Seq<Seq<u8>>, many: Seq<Seq<u8>>, kind: FileKind, n: nat)
    requires
        n <= few.len(),
        n <= many.len(),
        forall|i: int| 0 <= i < n ==> few[i] == many[i],
    ensures
        of_kind(few, kind, n) == of_kind(many, kind, n),
    decreases n,
{
    if n == 0 {
        reveal(Seq::filter);
        assert(of_kind(few, kind, 0) =~= of_kind(many, kind, 0));
    } else {
        let m = (n - 1) as nat;
        lemma_of_kind_of_prefix(few, many, kind, m);
        lemma_one_file_more(few, kind, m);
        lemma_one_file_more(many, kind, m);
    }
}

/// The bytes of ".png".
pub open spec fn dot_png() -> Seq<u8> {
    seq![0x2E, 0x70, 0x6E, 0x67]
}

/// The bytes of ".tif".
pub open spec fn dot_tif() -> Seq<u8> {
    seq![0x2E, 0x74, 0x69, 0x66]
}

/// The bytes of ".tiff".
pub open spec fn dot_tiff() -> Seq<u8> {
    seq![0x2E, 0x74, 0x69, 0x66, 0x66]
}

/// Whether a name ends in the given bytes and has others before them.
pub open spec fn ends_in(name: Seq<u8>, ending: Seq<u8>) -> bool {
    name.len() > ending.len() && name.skip(name.len() - ending.len()) == ending
}

/// Of a name made of a stem, a dot and bytes without a dot, these bytes are the
/// extension, and the stem is the stem.
pub proof fn law_extension_follows_the_last_dot(stem_bytes: Seq<u8>, after: Seq<u8>)
    requires
        stem_bytes.len() > 0,
        !after.contains(0x2E),
    ensures
        extension(stem_bytes + seq![0x2Eu8] + after) == Some(after),
        stem(stem_bytes + seq![0x2Eu8] + after) == stem_bytes,
{
    let name = stem_bytes + seq![0x2Eu8] + after;
    lemma_last_dot(name, stem_bytes.len() as int);
    assert(name.skip((stem_bytes.len() + 1) as int) =~= after);
    assert(name.take(stem_bytes.len() as int) =~= stem_bytes);
}

/// A name without a dot, or whose only dot comes first, is all stem.
pub proof fn law_no_dot_no_extension(name: Seq<u8>)
    requires
        forall|i: int| 0 < i < name.len() ==> name[i] != 0x2E,
    ensures
        extension(name) is None,
        stem(name) == name,
    decreases name.len(),
{
    if name.len() > 0 {
        law_no_dot_no_extension(name.drop_last());
    }
}

/// The last dot is where a dot stands and none behind it.
proof fn lemma_last_dot(name: Seq<u8>, at: int)
    requires
        0 <= at < name.len(),
        name[at] == 0x2E,
        forall|i: int| at < i < name.len() ==> name[i] != 0x2E,
    ensures
        last_dot(name) == Some(at),
    decreases name.len(),
{
    if at < name.len() - 1 {
        assert(name.last() != 0x2E);
        lemma_last_dot(name.drop_last(), at);
    }
}

proof fn lemma_last_dot_is_a_dot(name: Seq<u8>)
    ensures
        last_dot(name) matches Some(i) ==> 0 <= i < name.len() && name[i] == 0x2E,
    decreases name.len(),
{
    if name.len() > 0 {
        lemma_last_dot_is_a_dot(name.drop_last());
    }
}

/// A file is a PNG file just where its name has something before ".png" at its
/// end, and a TIFF file just where it has something before ".tif" or ".tiff".
pub proof fn law_kinds_go_by_the_ends_of_names(name: Seq<u8>)
    ensures
        FileKind::Png.takes(name) <==> ends_in(name, dot_png()),
        FileKind::Tiff.takes(name) <==> ends_in(name, dot_tif()) || ends_in(name, dot_tiff()),
{
    reveal_strlit("png");
    reveal_strlit("tif");
    reveal_strlit("tiff");
    lemma_extension_is_an_ending(name, "png"@, dot_png());
    lemma_extension_is_an_ending(name, "tif"@, dot_tif());
    lemma_extension_is_an_ending(name, "tiff"@, dot_tiff());
}

proof fn lemma_extension_is_an_ending(name: Seq<u8>, text: Seq<char>, ending: Seq<u8>)
    requires
        is_ascii_chars(text),
        ending.len() == text.len() + 1,
        ending[0] == 0x2E,
        forall|i: int| 0 <= i < text.len() ==> ending[i + 1] == #[trigger] text[i] as u8,
        forall|i: int| 0 < i < ending.len() ==> ending[i] != 0x2E,
    ensures
        extension(name) == Some(encode_utf8(text)) <==> ends_in(name, ending),
{
    is_ascii_chars_encode_utf8(text);
    let after = encode_utf8(text);
    assert(ending =~= seq![0x2Eu8] + after);
    lemma_last_dot_is_a_dot(name);
    if ends_in(name, ending) {
        let first = name.take(name.len() - ending.len());
        assert(name =~= first + ending);
        assert(name =~= first + seq![0x2Eu8] + after);
        assert forall|i: int| 0 <= i < after.len() implies after[i] != 0x2E by {
            assert(ending[i + 1] == after[i]);
        }
        law_extension_follows_the_last_dot(first, after);
    }
    if extension(name) == Some(after) {
        let i = cut(name)->Some_0;
        assert(name.skip(i + 1).len() == after.len());
        assert(name.skip(i) =~= seq![0x2Eu8] + name.skip(i + 1));
    }
}

/// Names are told apart where they first differ: the one with the lesser byte
/// there comes first.
pub proof fn law_names_compare_where_they_differ(
    start: Seq<u8>,
    x: u8,
    s: Seq<u8>,
    y: u8,
    t: Seq<u8>,
)
    requires
        x < y,
    ensures
        up_to(start + seq![x] + s, start + seq![y] + t),
        !up_to(start + seq![y] + t, start + seq![x] + s),
    decreases start.len(),
{
    let a = start + seq![x] + s;
    let b = start + seq![y] + t;
    if start.len() > 0 {
        law_names_compare_where_they_differ(start.skip(1), x, s, y, t);
        assert(a.skip(1) =~= start.skip(1) + seq![x] + s);
        assert(b.skip(1) =~= start.skip(1) + seq![y] + t);
        assert(a[0] == start[0] && b[0] == start[0]);
    } else {
        assert(a[0] == x && b[0] == y);
    }
}

/// A name comes before any longer one that starts with it.
pub proof fn law_start_of_a_name_comes_first(start: Seq<u8>, rest: Seq<u8>)
    ensures
        up_to(start, start + rest),
        rest.len() > 0 ==> !up_to(start + rest, start),
    decreases start.len(),
{
    if start.len() > 0 {
        law_start_of_a_name_comes_first(start.skip(1), rest);
        assert((start + rest).skip(1) =~= start.skip(1) + rest);
    }
}

/// Files with the same name are listed as they come.
pub proof fn law_same_names_are_listed_as_they_come(
    names: Seq<Seq<u8>>,
    kind: FileKind,
    p: int,
    q: int,
)
    requires
        0 <= p < q < listing(names, kind).len(),
        names[listing(names, kind)[p]] == names[listing(names, kind)[q]],
    ensures
        listing(names, kind)[p] < listing(names, kind)[q],
{
    let leq = name_order(names);
    let listed = listing(names, kind);
    law_names_are_totally_ordered(names);
    of_kind(names, kind, names.len()).lemma_sort_by_ensures(leq);
    law_listing_is_complete_and_in_order(names, kind);
    assert(leq(listed[p], listed[q]));
    assert(listed[p] != listed[q]);
}

/// The stem of a file called after a text is that text, whatever the extension;
/// a stem that no text encodes to gives way to the fallback.
pub proof fn law_stem_is_the_text_it_encodes(name: Seq<u8>, text: Seq<char>, fallback: Seq<char>)
    ensures
        stem(name) == encode_utf8(text) ==> stem_text(name, fallback) == text,
        (forall|t: Seq<char>| stem(name) != #[trigger] encode_utf8(t)) ==> stem_text(name, fallback)
            == fallback,
{
    encode_utf8_valid_utf8(text);
    encode_utf8_decode_utf8(text);
    if valid_utf8(stem(name)) {
        decode_utf8_encode_utf8(stem(name));
    }
}

/// The name of an input starts with the tag of its corpus, ends with the name
/// within it, and has a slash and nothing else between them.
pub proof fn law_tagged_name_has_both_parts(tag_prefix: Seq<char>, name: Seq<char>)
    ensures
        tagged(tag_prefix, name).len() == tag_prefix.len() + 1 + name.len(),
        tagged(tag_prefix, name).take(tag_prefix.len() as int) == tag_prefix,
        tagged(tag_prefix, name)[tag_prefix.len() as int] == '/',
        tagged(tag_prefix, name).skip((tag_prefix.len() + 1) as int) == name,
{
    reveal_strlit("/");
    let whole = tagged(tag_prefix, name);
    assert(whole.take(tag_prefix.len() as int) =~= tag_prefix);
    assert(whole.skip((tag_prefix.len() + 1) as int) =~= name);
}

/// What is said of a list of files is said of each file's own name and content.
pub proof fn law_files_keep_name_and_content(files: Seq<DirFile>, i: int)
    requires
        0 <= i < files.len(),
    ensures
        file_texts(files).len() == files.len(),
        names(file_texts(files)).len() == files.len(),
        file_texts(files)[i].name == files[i].name@,
        names(file_texts(files))[i] == files[i].name@,
        files[i].bytes is None <==> file_texts(files)[i].bytes is None,
        files[i].bytes matches Some(bytes) ==> file_texts(files)[i].bytes == Some(bytes@),
{
}

/// What an item is mapped to is among what all are mapped to.
pub(crate) proof fn lemma_mapped_item<A, B>(s: Seq<A>, f: spec_fn(A) -> Option<B>, k: int)
    requires
        0 <= k < s.len(),
        f(s[k]) is Some,
    ensures
        s.filter_map(f).contains(f(s[k])->Some_0),
{
    s.lemma_filter_map_take_succ(f, k);
    lemma_prefix_is_mapped_first(s, f, k + 1);
    let upto = s.take(k + 1).filter_map(f);
    let whole = s.filter_map(f);
    let last = upto.len() - 1;
    assert(upto[last] == f(s[k])->Some_0);
    assert(whole[last] == upto[last]);
}

/// Whether `i` and `j` are places of `s` whose items are mapped to what stands
/// at `p` and `q` in what all are mapped to.
pub open spec fn mapped_from<A, B>(
    s: Seq<A>,
    f: spec_fn(A) -> Option<B>,
    p: int,
    q: int,
    i: int,
    j: int,
) -> bool {
    &&& 0 <= i < s.len()
    &&& 0 <= j < s.len()
    &&& f(s[i]) == Some(s.filter_map(f)[p])
    &&& f(s[j]) == Some(s.filter_map(f)[q])
    &&& p < q ==> i < j
    &&& p == q ==> i == j
}

/// What items are mapped to stands in the order of the items.
pub(crate) proof fn lemma_mapped_in_order<A, B>(
    s: Seq<A>,
    f: spec_fn(A) -> Option<B>,
    p: int,
    q: int,
)
    requires
        0 <= p <= q < s.filter_map(f).len(),
    ensures
        exists|i: int, j: int| #[trigger] mapped_from(s, f, p, q, i, j),
    decreases s.len(),
{
    if s.len() > 0 {
        let rest = s.drop_last();
        let whole = s.filter_map(f);
        let most = rest.filter_map(f);
        if q < most.len() {
            lemma_mapped_in_order(rest, f, p, q);
            let (i, j) = choose|i: int, j: int| #[trigger] mapped_from(rest, f, p, q, i, j);
            assert(whole[p] == most[p] && whole[q] == most[q]);
            assert(mapped_from(s, f, p, q, i, j));
        } else {
            let j = s.len() - 1;
            assert(f(s[j]) == Some(whole[q]));
            if p < q {
                lemma_mapped_in_order(rest, f, p, p);
                let (i, i2) = choose|i: int, i2: int| #[trigger]
                    mapped_from(rest, f, p, p, i, i2);
                assert(whole[p] == most[p]);
                assert(mapped_from(s, f, p, q, i, j));
            } else {
                assert(mapped_from(s, f, p, q, j, j));
            }
        }
    }
}

/// An item that is mapped to something adds it in one place.
pub(crate) proof fn lemma_mapped_item_once<A, B>(
    s: Seq<A>,
    f: spec_fn(A) -> Option<B>,
    at: int,
) -> (p: int)
    requires
        0 <= at < s.len(),
        f(s[at]) is Some,
    ensures
        0 <= p <= s.remove(at).filter_map(f).len(),
        s.filter_map(f) == s.remove(at).filter_map(f).insert(p, f(s[at])->Some_0),
    decreases s.len(),
{
    let rest = s.remove(at);
    let item = f(s[at])->Some_0;
    if at == s.len() - 1 {
        assert(rest =~= s.drop_last());
        let p = rest.filter_map(f).len() as int;
        assert(s.filter_map(f) =~= rest.filter_map(f).insert(p, item));
        p
    } else {
        let p = lemma_mapped_item_once(s.drop_last(), f, at);
        let fewer = s.drop_last().remove(at);
        assert(rest.drop_last() =~= fewer);
        assert(rest.last() == s.last());
        match f(s.last()) {
            Some(last) => {
                assert(fewer.filter_map(f).insert(p, item) + seq![last] =~= (fewer.filter_map(f)
                    + seq![last]).insert(p, item));
            },
            None => {},
        }
        p
    }
}

/// The first thing that items are mapped to is that of the first item mapped to
/// anything.
pub(crate) proof fn lemma_first_mapped<A, B>(s: Seq<A>, f: spec_fn(A) -> Option<B>) -> (a: int)
    requires
        s.filter_map(f).len() > 0,
    ensures
        0 <= a < s.len(),
        f(s[a]) == Some(s.filter_map(f)[0]),
        forall|k: int| 0 <= k < a ==> f(#[trigger] s[k]) is None,
    decreases s.len(),
{
    let rest = s.drop_last();
    if rest.filter_map(f).len() > 0 {
        let a = lemma_first_mapped(rest, f);
        assert(s.filter_map(f)[0] == rest.filter_map(f)[0]);
        assert forall|k: int| 0 <= k < a implies f(#[trigger] s[k]) is None by {
            assert(rest[k] == s[k]);
        }
        a
    } else {
        let a = s.len() - 1;
        assert forall|k: int| 0 <= k < a implies f(#[trigger] s[k]) is None by {
            if f(s[k]) is Some {
                assert(rest[k] == s[k]);
                lemma_mapped_item(rest, f, k);
            }
        }
        a
    }
}

/// The numbers in a list are those in it, each in its place.
pub proof fn law_indices_are_the_numbers(v: Seq<usize>, i: int)
    requires
        0 <= i < v.len(),
    ensures
        indices(v).len() == v.len(),
        indices(v)[i] == v[i],
{
}

} // verus!
