//! The image file picker: its entries, their order, and how it answers
//! clicks and keys.
//!
//! Reading directories, loading previews and measuring time are done by
//! the caller; the picker tells it what to do next through a
//! [`SelectorAction`] and is told the outcome through its methods.
use vstd::prelude::*;
use crate::text::{chars_eq, chars_of, slice_chars_all, string_of};

verus! {

/// What `str::to_lowercase` yields for a text (full Unicode lowering).
pub uninterp spec fn lowercase_of(text: Seq<char>) -> Seq<char>;

/// `str::to_lowercase`. Claimed: the result is the named function of the text.
#[verifier::external_body]
fn to_lowercase(s: &str) -> (res: String)
    ensures
        res@ == lowercase_of(s@),
{
    s.to_lowercase()
}

/// The column the list is ordered by.
#[derive(Clone, Copy, Debug, PartialEq, Eq, Structural)]
pub enum SortColumn {
    Name,
    Size,
    Modified,
}

/// The direction the list is ordered in.
#[derive(Clone, Copy, Debug, PartialEq, Eq, Structural)]
pub enum SortDirection {
    Ascending,
    Descending,
}

/// What a listed entry is.
#[derive(Clone, Copy, Debug, PartialEq, Eq, Structural)]
pub enum FileEntryKind {
    Directory,
    SupportedImage,
}

/// One listed entry; `modified_time` counts nanoseconds since the Unix
/// epoch.
#[derive(Debug)]
pub struct FileEntryItem {
    pub name: String,
    pub path: String,
    pub kind: FileEntryKind,
    pub size_bytes: u64,
    pub modified_time: u128,
}

/// A listed entry, over character sequences.
pub ghost struct EntryModel {
    pub name: Seq<char>,
    pub path: Seq<char>,
    pub kind: FileEntryKind,
    pub size_bytes: u64,
    pub modified_time: u128,
}

impl View for FileEntryItem {
    type V = EntryModel;

    open spec fn view(&self) -> EntryModel {
        EntryModel {
            name: self.name@,
            path: self.path@,
            kind: self.kind,
            size_bytes: self.size_bytes,
            modified_time: self.modified_time,
        }
    }
}

impl Clone for FileEntryItem {
    fn clone(&self) -> (res: Self)
        ensures
            res@ == self@,
    {
        FileEntryItem {
            name: self.name.clone(),
            path: self.path.clone(),
            kind: self.kind,
            size_bytes: self.size_bytes,
            modified_time: self.modified_time,
        }
    }
}

pub open spec fn entries_view(v: Seq<FileEntryItem>) -> Seq<EntryModel> {
    v.map_values(|e: FileEntryItem| e@)
}

/// Lexicographic order of character sequences by code point: -1, 0 or 1.
pub open spec fn char_seq_order(a: Seq<char>, b: Seq<char>) -> int
    decreases a.len(),
{
    if a.len() == 0 && b.len() == 0 {
        0
    } else if a.len() == 0 {
        -1
    } else if b.len() == 0 {
        1
    } else if (a[0] as int) < (b[0] as int) {
        -1
    } else if (a[0] as int) > (b[0] as int) {
        1
    } else {
        char_seq_order(a.drop_first(), b.drop_first())
    }
}

pub open spec fn int_order(a: int, b: int) -> int {
    if a < b {
        -1
    } else if a > b {
        1
    } else {
        0
    }
}

pub open spec fn kind_rank(k: FileEntryKind) -> int {
    match k {
        FileEntryKind::Directory => 0,
        FileEntryKind::SupportedImage => 1,
    }
}

/// How two entries compare: directories before images, then by the
/// column (names without regard to case), the whole order reversed when
/// descending.
pub open spec fn entry_order(a: EntryModel, b: EntryModel, col: SortColumn, dir: SortDirection) -> int {
    let c = if a.kind != b.kind {
        int_order(kind_rank(a.kind), kind_rank(b.kind))
    } else {
        match col {
            SortColumn::Name => char_seq_order(lowercase_of(a.name), lowercase_of(b.name)),
            SortColumn::Size => int_order(a.size_bytes as int, b.size_bytes as int),
            SortColumn::Modified => int_order(a.modified_time as int, b.modified_time as int),
        }
    };
    if dir == SortDirection::Descending {
        -c
    } else {
        c
    }
}

pub proof fn lemma_char_seq_order_props(a: Seq<char>, b: Seq<char>)
    ensures
        char_seq_order(a, b) == -char_seq_order(b, a),
        -1 <= char_seq_order(a, b) <= 1,
        char_seq_order(a, b) == 0 <==> a == b,
    decreases a.len(),
{
    if a.len() > 0 && b.len() > 0 && (a[0] as int) == (b[0] as int) {
        lemma_char_seq_order_props(a.drop_first(), b.drop_first());
        if a.drop_first() == b.drop_first() {
            assert(a =~= seq![a[0]] + a.drop_first());
            assert(b =~= seq![b[0]] + b.drop_first());
        }
        if a == b {
            assert(a.drop_first() == b.drop_first());
        }
    }
    if a.len() == 0 && b.len() == 0 {
        assert(a =~= b);
    }
}

pub proof fn lemma_char_seq_order_trans(a: Seq<char>, b: Seq<char>, c: Seq<char>)
    requires
        char_seq_order(a, b) <= 0,
        char_seq_order(b, c) <= 0,
    ensures
        char_seq_order(a, c) <= 0,
        char_seq_order(a, b) < 0 || char_seq_order(b, c) < 0 ==> char_seq_order(a, c) < 0,
    decreases a.len(),
{
    lemma_char_seq_order_props(a, b);
    lemma_char_seq_order_props(b, c);
    lemma_char_seq_order_props(a, c);
    if a.len() > 0 && b.len() > 0 && c.len() > 0 {
        if (a[0] as int) == (b[0] as int) && (b[0] as int) == (c[0] as int) {
            lemma_char_seq_order_trans(a.drop_first(), b.drop_first(), c.drop_first());
        }
    }
}

/// The entry order is a total preorder.
pub proof fn lemma_entry_order_props(a: EntryModel, b: EntryModel, c: EntryModel, col: SortColumn, dir: SortDirection)
    ensures
        entry_order(a, b, col, dir) == -entry_order(b, a, col, dir),
        entry_order(a, b, col, dir) <= 0 && entry_order(b, c, col, dir) <= 0 ==> entry_order(a, c, col, dir) <= 0,
        entry_order(a, b, col, dir) < 0 && entry_order(b, c, col, dir) <= 0 ==> entry_order(a, c, col, dir) < 0,
        entry_order(a, b, col, dir) <= 0 && entry_order(b, c, col, dir) < 0 ==> entry_order(a, c, col, dir) < 0,
{
    let la = lowercase_of(a.name);
    let lb = lowercase_of(b.name);
    let lc = lowercase_of(c.name);
    lemma_char_seq_order_props(la, lb);
    lemma_char_seq_order_props(lb, lc);
    lemma_char_seq_order_props(la, lc);
    if dir == SortDirection::Ascending {
        if char_seq_order(la, lb) <= 0 && char_seq_order(lb, lc) <= 0 {
            lemma_char_seq_order_trans(la, lb, lc);
        }
    } else {
        if char_seq_order(lc, lb) <= 0 && char_seq_order(lb, la) <= 0 {
            lemma_char_seq_order_trans(lc, lb, la);
        }
        lemma_char_seq_order_props(lb, la);
        lemma_char_seq_order_props(lc, lb);
        lemma_char_seq_order_props(lc, la);
    }
}

/// Whether `p` lists each of `0..n` once.
pub open spec fn is_perm(p: Seq<int>, n: nat) -> bool {
    &&& p.len() == n
    &&& forall|k: int| 0 <= k < n ==> 0 <= #[trigger] p[k] < n
    &&& forall|k: int, l: int| 0 <= k < l < n ==> #[trigger] p[k] != #[trigger] p[l]
}

/// `out` is `input` stably sorted by the entry order: equal entries keep
/// their relative order.
pub open spec fn is_sorted_perm(input: Seq<EntryModel>, p: Seq<int>, col: SortColumn, dir: SortDirection) -> bool {
    &&& is_perm(p, input.len())
    &&& forall|k: int, l: int|
        0 <= k < l < p.len() ==> entry_order(input[#[trigger] p[k]], input[#[trigger] p[l]], col, dir) < 0 || (
        entry_order(input[p[k]], input[p[l]], col, dir) == 0 && p[k] < p[l])
}

pub open spec fn is_stable_sort_of(input: Seq<EntryModel>, out: Seq<EntryModel>, col: SortColumn, dir: SortDirection) -> bool {
    exists|p: Seq<int>|
        is_sorted_perm(input, p, col, dir) && out.len() == input.len() && forall|k: int|
            0 <= k < out.len() ==> #[trigger] out[k] == input[p[k]]
}

/// What a sorted file list looks like: ascending, directories come before
/// images, and among entries of one kind names (without regard to case),
/// sizes or modification times never decrease along the list, as the
/// column says; descending turns every one of these around.
pub proof fn lemma_sorted_entries(input: Seq<EntryModel>, out: Seq<EntryModel>, col: SortColumn, dir: SortDirection)
    requires
        is_stable_sort_of(input, out, col, dir),
    ensures
        out.len() == input.len(),
        forall|k: int, l: int| 0 <= k < l < out.len() ==> {
            let a = #[trigger] out[k];
            let b = #[trigger] out[l];
            &&& dir == SortDirection::Ascending ==> kind_rank(a.kind) <= kind_rank(b.kind)
            &&& dir == SortDirection::Descending ==> kind_rank(a.kind) >= kind_rank(b.kind)
            &&& (a.kind == b.kind && col == SortColumn::Modified && dir == SortDirection::Ascending)
                ==> a.modified_time <= b.modified_time
            &&& (a.kind == b.kind && col == SortColumn::Modified && dir == SortDirection::Descending)
                ==> a.modified_time >= b.modified_time
            &&& (a.kind == b.kind && col == SortColumn::Size && dir == SortDirection::Ascending)
                ==> a.size_bytes <= b.size_bytes
            &&& (a.kind == b.kind && col == SortColumn::Size && dir == SortDirection::Descending)
                ==> a.size_bytes >= b.size_bytes
            &&& (a.kind == b.kind && col == SortColumn::Name && dir == SortDirection::Ascending)
                ==> char_seq_order(lowercase_of(a.name), lowercase_of(b.name)) <= 0
            &&& (a.kind == b.kind && col == SortColumn::Name && dir == SortDirection::Descending)
                ==> char_seq_order(lowercase_of(a.name), lowercase_of(b.name)) >= 0
        },
{
    let p = choose|p: Seq<int>| is_sorted_perm(input, p, col, dir) && out.len() == input.len() && forall|k: int|
        0 <= k < out.len() ==> #[trigger] out[k] == input[p[k]];
    assert forall|k: int, l: int| 0 <= k < l < out.len() implies entry_order(#[trigger] out[k], #[trigger] out[l], col, dir) <= 0 by {
        assert(out[k] == input[p[k]] && out[l] == input[p[l]]);
    }
}

/// -1, 0 or 1 as `a` is below, equal to or above `b` in code-point order.
pub(crate) fn char_seq_order_exec(a: &[char], b: &[char]) -> (res: i8)
    ensures
        res == char_seq_order(a@, b@),
{
    let mut i: usize = 0;
    assert(a@.subrange(0, a@.len() as int) =~= a@);
    assert(b@.subrange(0, b@.len() as int) =~= b@);
    while i < a.len() && i < b.len()
        invariant
            i <= a@.len(),
            i <= b@.len(),
            char_seq_order(a@, b@) == char_seq_order(a@.subrange(i as int, a@.len() as int), b@.subrange(i as int, b@.len() as int)),
        decreases a@.len() - i,
    {
        let ghost ra = a@.subrange(i as int, a@.len() as int);
        let ghost rb = b@.subrange(i as int, b@.len() as int);
        assert(ra[0] == a@[i as int] && rb[0] == b@[i as int]);
        let x = a[i];
        let y = b[i];
        if x < y {
            return -1;
        }
        if x > y {
            return 1;
        }
        assert(ra.drop_first() =~= a@.subrange(i + 1, a@.len() as int));
        assert(rb.drop_first() =~= b@.subrange(i + 1, b@.len() as int));
        i = i + 1;
    }
    if i < a.len() {
        1
    } else if i < b.len() {
        -1
    } else {
        0
    }
}

fn int_order_u128(a: u128, b: u128) -> (res: i8)
    ensures
        res == int_order(a as int, b as int),
{
    if a < b {
        -1
    } else if a > b {
        1
    } else {
        0
    }
}

/// How two entries compare, given their lowered names.
fn compare_entries(a: &FileEntryItem, b: &FileEntryItem, la: &[char], lb: &[char], col: SortColumn, dir: SortDirection) -> (res: i8)
    requires
        la@ == lowercase_of(a.name@),
        lb@ == lowercase_of(b.name@),
    ensures
        res == entry_order(a@, b@, col, dir),
{
    let c: i8 = if a.kind != b.kind {
        match a.kind {
            FileEntryKind::Directory => -1,
            FileEntryKind::SupportedImage => 1,
        }
    } else {
        match col {
            SortColumn::Name => char_seq_order_exec(la, lb),
            SortColumn::Size => int_order_u128(a.size_bytes as u128, b.size_bytes as u128),
            SortColumn::Modified => int_order_u128(a.modified_time, b.modified_time),
        }
    };
    proof {
        lemma_char_seq_order_range(la@, lb@);
    }
    if dir == SortDirection::Descending {
        -c
    } else {
        c
    }
}

proof fn lemma_char_seq_order_range(a: Seq<char>, b: Seq<char>)
    ensures
        -1 <= char_seq_order(a, b) <= 1,
{
    lemma_char_seq_order_props(a, b);
}

/// The lowered name of each entry.
fn lowered_names(entries: &Vec<FileEntryItem>) -> (res: Vec<Vec<char>>)
    ensures
        res@.len() == entries@.len(),
        forall|k: int| 0 <= k < res@.len() ==> (#[trigger] res@[k])@ == lowercase_of(entries@[k].name@),
{
    let mut res: Vec<Vec<char>> = Vec::new();
    let mut i: usize = 0;
    while i < entries.len()
        invariant
            i <= entries@.len(),
            res@.len() == i,
            forall|k: int| 0 <= k < i ==> (#[trigger] res@[k])@ == lowercase_of(entries@[k].name@),
        decreases entries@.len() - i,
    {
        let lower = to_lowercase(entries[i].name.as_str());
        res.push(chars_of(lower.as_str()));
        i = i + 1;
    }
    res
}

/// Orders `entries` stably: directories first, then by the column,
/// everything reversed when descending.
pub fn sort_entries(entries: &mut Vec<FileEntryItem>, col: SortColumn, dir: SortDirection)
    ensures
        is_stable_sort_of(entries_view(old(entries)@), entries_view(final(entries)@), col, dir),
{
    let ghost input = entries_view(entries@);
    let names = lowered_names(entries);
    let n = entries.len();
    let mut order: Vec<usize> = Vec::new();
    let mut i: usize = 0;
    while i < n
        invariant
            n == entries@.len(),
            input == entries_view(entries@),
            names@.len() == n,
            forall|k: int| 0 <= k < n ==> (#[trigger] names@[k])@ == lowercase_of(entries@[k].name@),
            i <= n,
            order@.len() == i,
            forall|k: int| 0 <= k < i ==> (#[trigger] order@[k]) < i,
            forall|k: int, l: int| 0 <= k < l < i ==> #[trigger] order@[k] != #[trigger] order@[l],
            forall|k: int, l: int|
                0 <= k < l < i ==> entry_order(input[#[trigger] order@[k] as int], input[#[trigger] order@[l] as int], col, dir) < 0
                    || (entry_order(input[order@[k] as int], input[order@[l] as int], col, dir) == 0 && order@[k] < order@[l]),
        decreases n - i,
    {
        let mut q = order.len();
        while q > 0 && compare_entries(&entries[i], &entries[order[q - 1]], &names[i], &names[order[q - 1]], col, dir) < 0
            invariant
                n == entries@.len(),
                input == entries_view(entries@),
                names@.len() == n,
                forall|k: int| 0 <= k < n ==> (#[trigger] names@[k])@ == lowercase_of(entries@[k].name@),
                i < n,
                order@.len() == i,
                forall|k: int| 0 <= k < i ==> (#[trigger] order@[k]) < i,
                q <= i,
                forall|k: int| q <= k < i ==> entry_order(input[i as int], input[#[trigger] order@[k] as int], col, dir) < 0,
            decreases q,
        {
            q = q - 1;
        }
        let ghost old_order = order@;
        proof {
            if q > 0 {
                assert(entry_order(input[i as int], input[old_order[q - 1] as int], col, dir) >= 0);
            }
            assert forall|k: int| 0 <= k < q implies entry_order(input[#[trigger] old_order[k] as int], input[i as int], col, dir) <= 0 by {
                let last = old_order[q - 1] as int;
                lemma_entry_order_props(input[i as int], input[last], input[last], col, dir);
                if k < q - 1 {
                    lemma_entry_order_props(input[old_order[k] as int], input[last], input[i as int], col, dir);
                }
            }
        }
        order.insert(q, i);
        proof {
            let no = order@;
            assert(no == old_order.insert(q as int, i));
            assert forall|k: int, l: int|
                0 <= k < l < i + 1 implies entry_order(input[#[trigger] no[k] as int], input[#[trigger] no[l] as int], col, dir) < 0
                    || (entry_order(input[no[k] as int], input[no[l] as int], col, dir) == 0 && no[k] < no[l]) by {
                if k == q {
                    assert(no[l] == old_order[l - 1]);
                    lemma_entry_order_props(input[i as int], input[no[l] as int], input[no[l] as int], col, dir);
                } else if l == q {
                    assert(no[k] == old_order[k]);
                } else {
                    let k0 = if k < q { k } else { k - 1 };
                    let l0 = if l < q { l } else { l - 1 };
                    assert(no[k] == old_order[k0] && no[l] == old_order[l0]);
                }
            }
            assert forall|k: int, l: int| 0 <= k < l < i + 1 implies #[trigger] no[k] != #[trigger] no[l] by {
                if k == q {
                    assert(no[l] == old_order[l - 1]);
                } else if l == q {
                    assert(no[k] == old_order[k]);
                } else {
                    let k0 = if k < q { k } else { k - 1 };
                    let l0 = if l < q { l } else { l - 1 };
                    assert(no[k] == old_order[k0] && no[l] == old_order[l0]);
                }
            }
            assert forall|k: int| 0 <= k < i + 1 implies (#[trigger] no[k]) < i + 1 by {
                if k < q {
                    assert(no[k] == old_order[k]);
                } else if k > q {
                    assert(no[k] == old_order[k - 1]);
                }
            }
        }
        i = i + 1;
    }
    let mut out: Vec<FileEntryItem> = Vec::new();
    let mut k: usize = 0;
    while k < n
        invariant
            n == entries@.len(),
            input == entries_view(entries@),
            order@.len() == n,
            forall|j: int| 0 <= j < n ==> (#[trigger] order@[j]) < n,
            out@.len() == k,
            k <= n,
            forall|j: int| 0 <= j < k ==> (#[trigger] out@[j])@ == input[order@[j] as int],
        decreases n - k,
    {
        out.push(entries[order[k]].clone());
        k = k + 1;
    }
    proof {
        let p = order@.map_values(|x: usize| x as int);
        assert(is_sorted_perm(input, p, col, dir));
        let ov = entries_view(out@);
        assert forall|j: int| 0 <= j < ov.len() implies #[trigger] ov[j] == input[p[j]] by {
            assert(ov[j] == out@[j]@);
        }
        assert(is_stable_sort_of(input, ov, col, dir));
    }
    *entries = out;
}

/// Whether a directory entry is hidden: its name starts with a dot.
pub fn is_hidden_file(name: &str) -> (res: bool)
    ensures
        res == (name@.len() > 0 && name@[0] == '.'),
{
    let cs = chars_of(name);
    cs.len() > 0 && cs[0] == '.'
}

/// The extension of a file name as `Path::extension` finds it: the text
/// after the last dot, unless there is no dot, the only dot starts the
/// name, or the name is `..`.
pub open spec fn extension_of(name: Seq<char>) -> Option<Seq<char>> {
    if name == seq!['.', '.'] {
        None
    } else {
        match last_dot(name) {
            None => None,
            Some(i) => if i == 0 {
                None
            } else {
                Some(name.subrange(i + 1, name.len() as int))
            },
        }
    }
}

/// The position of the last dot of `s`.
pub open spec fn last_dot(s: Seq<char>) -> Option<int>
    decreases s.len(),
{
    if s.len() == 0 {
        None
    } else if s.last() == '.' {
        Some(s.len() - 1)
    } else {
        last_dot(s.drop_last())
    }
}

pub open spec fn supported_extensions() -> Seq<Seq<char>> {
    seq![
        seq!['p', 'n', 'g'],
        seq!['j', 'p', 'g'],
        seq!['j', 'p', 'e', 'g'],
        seq!['w', 'e', 'b', 'p'],
        seq!['b', 'm', 'p'],
        seq!['g', 'i', 'f'],
    ]
}

/// Whether a file of this name is an image the picker offers: its
/// extension, lowered, is png, jpg, jpeg, webp, bmp or gif.
pub open spec fn is_supported_image_spec(file_name: Seq<char>) -> bool {
    match extension_of(file_name) {
        Some(ext) => supported_extensions().contains(lowercase_of(ext)),
        None => false,
    }
}

fn last_dot_exec(s: &[char]) -> (res: Option<usize>)
    ensures
        match res {
            Some(i) => last_dot(s@) == Some(i as int) && i < s@.len(),
            None => last_dot(s@) == None::<int>,
        },
{
    let mut k: usize = s.len();
    assert(s@.subrange(0, s@.len() as int) =~= s@);
    while k > 0
        invariant
            k <= s@.len(),
            last_dot(s@) == last_dot(s@.subrange(0, k as int)),
        decreases k,
    {
        let ghost pre = s@.subrange(0, k as int);
        assert(pre.last() == s@[k - 1]);
        assert(pre.drop_last() =~= s@.subrange(0, k - 1));
        if s[k - 1] == '.' {
            return Some(k - 1);
        }
        k = k - 1;
    }
    None
}

/// Whether a file of this name is an image the picker offers.
pub fn is_supported_image_file(file_name: &str) -> (res: bool)
    ensures
        res == is_supported_image_spec(file_name@),
{
    let name = chars_of(file_name);
    let dots: Vec<char> = vec!['.', '.'];
    if chars_eq(&name, &dots) {
        assert(extension_of(name@) == None::<Seq<char>>);
        return false;
    }
    let ext = match last_dot_exec(&name) {
        None => {
            return false;
        },
        Some(i) => {
            if i == 0 {
                return false;
            }
            let n = name.len();
            assert(i < n);
            crate::text::slice_chars(&name, i + 1, n)
        },
    };
    assert(extension_of(name@) == Some(ext@));
    let lower_s = to_lowercase(string_of(&ext).as_str());
    let lower = chars_of(lower_s.as_str());
    let png: Vec<char> = vec!['p', 'n', 'g'];
    let jpg: Vec<char> = vec!['j', 'p', 'g'];
    let jpeg: Vec<char> = vec!['j', 'p', 'e', 'g'];
    let webp: Vec<char> = vec!['w', 'e', 'b', 'p'];
    let bmp: Vec<char> = vec!['b', 'm', 'p'];
    let gif: Vec<char> = vec!['g', 'i', 'f'];
    let r = chars_eq(&lower, &png) || chars_eq(&lower, &jpg) || chars_eq(&lower, &jpeg) || chars_eq(&lower, &webp)
        || chars_eq(&lower, &bmp) || chars_eq(&lower, &gif);
    proof {
        let exts = supported_extensions();
        assert(png@ == exts[0] && jpg@ == exts[1] && jpeg@ == exts[2] && webp@ == exts[3] && bmp@ == exts[4] && gif@ == exts[5]);
        if r {
            assert(exts.contains(lower@));
        } else {
            assert forall|k: int| 0 <= k < exts.len() implies exts[k] != lower@ by {}
        }
    }
    r
}

/// Milliseconds within which a second click on the same entry counts as
/// a double click.
pub const DOUBLE_CLICK_TIME_THRESHOLD_MILLISECONDS: u64 = 400;

/// Whether `std::path::Path` compares the two path texts as equal (by
/// their components, so `/a/b/` and `/a/b` are the same path).
pub uninterp spec fn same_path(a: Seq<char>, b: Seq<char>) -> bool;

/// `==` on `std::path::Path`, which compares paths component by
/// component. Claimed: the result is the named function of the two texts,
/// and a text is the same path as itself.
#[verifier::external_body]
fn paths_equal(a: &str, b: &str) -> (res: bool)
    ensures
        res == same_path(a@, b@),
        a@ == b@ ==> res,
{
    std::path::Path::new(a) == std::path::Path::new(b)
}

/// Whether a click is the second of a double click: the previous click
/// was on the same path (`same_path`), at most the threshold earlier (a clock that ran
/// backwards counts as no time passed).
pub open spec fn is_double_click(
    last_path: Option<Seq<char>>,
    current_path: Seq<char>,
    last_time: Option<u64>,
    now: u64,
) -> bool {
    match (last_path, last_time) {
        (Some(p), Some(t)) => same_path(p, current_path) && (if now >= t { now - t } else { 0 }) <= DOUBLE_CLICK_TIME_THRESHOLD_MILLISECONDS,
        _ => false,
    }
}

/// Whether a click is the second of a double click.
pub fn check_if_double_click(last_path: &Option<String>, current_path: &str, last_time: Option<u64>, now: u64) -> (res: bool)
    ensures
        res == is_double_click(
            match last_path {
                Some(p) => Some(p@),
                None => None,
            },
            current_path@,
            last_time,
            now,
        ),
{
    match (last_path, last_time) {
        (Some(prev_path), Some(prev_time)) => {
            if paths_equal(prev_path.as_str(), current_path) {
                let elapsed = now.saturating_sub(prev_time);
                elapsed <= DOUBLE_CLICK_TIME_THRESHOLD_MILLISECONDS
            } else {
                false
            }
        },
        _ => false,
    }
}

pub open spec fn digits() -> Seq<char> {
    seq!['0', '1', '2', '3', '4', '5', '6', '7', '8', '9']
}

/// The decimal digits of `n`.
pub open spec fn decimal(n: nat) -> Seq<char>
    decreases n,
{
    if n < 10 {
        seq![digits()[n as int]]
    } else {
        decimal(n / 10).push(digits()[(n % 10) as int])
    }
}

/// The decimal digits of `n`, at least two.
pub open spec fn two_digits(n: nat) -> Seq<char> {
    if n < 10 {
        seq!['0'] + decimal(n)
    } else {
        decimal(n)
    }
}

fn digit_char(d: u64) -> (res: char)
    requires
        d < 10,
    ensures
        res == digits()[d as int],
{
    let ds: Vec<char> = vec!['0', '1', '2', '3', '4', '5', '6', '7', '8', '9'];
    assert(ds@ == digits());
    ds[d as usize]
}

/// The decimal digits of `n`.
pub fn decimal_exec(n: u64) -> (res: Vec<char>)
    ensures
        res@ == decimal(n as nat),
    decreases n,
{
    if n < 10 {
        vec![digit_char(n)]
    } else {
        let mut v = decimal_exec(n / 10);
        v.push(digit_char(n % 10));
        v
    }
}

/// `Gün <days> <hh>:<mm>` for a time `secs` seconds after the Unix epoch,
/// or `--` for a time before it.
pub open spec fn system_time_text(secs: Option<u64>) -> Seq<char> {
    match secs {
        Some(s) => seq!['G', 'ü', 'n', ' '] + decimal((s / 86400) as nat) + seq![' ']
            + two_digits(((s % 86400) / 3600) as nat) + seq![':'] + two_digits(((s % 3600) / 60) as nat),
        None => seq!['-', '-'],
    }
}

/// The modification time shown for an entry.
pub fn format_system_time(secs: Option<u64>) -> (res: String)
    ensures
        res@ == system_time_text(secs),
{
    match secs {
        Some(s) => {
            let mut out: Vec<char> = vec!['G', 'ü', 'n', ' '];
            crate::text::push_all(&mut out, &decimal_exec(s / 86400));
            out.push(' ');
            let hours = (s % 86400) / 3600;
            if hours < 10 {
                out.push('0');
            }
            crate::text::push_all(&mut out, &decimal_exec(hours));
            out.push(':');
            let minutes = (s % 3600) / 60;
            if minutes < 10 {
                out.push('0');
            }
            crate::text::push_all(&mut out, &decimal_exec(minutes));
            assert(out@ =~= system_time_text(secs));
            string_of(&out)
        },
        None => {
            let out: Vec<char> = vec!['-', '-'];
            assert(out@ =~= system_time_text(secs));
            string_of(&out)
        },
    }
}

/// Whether a folder is offered for a typed prefix: no prefix, or its
/// lowered name starts with the lowered prefix.
pub fn matches_folder_prefix(folder_name: &str, prefix: &str) -> (res: bool)
    ensures
        res == (prefix@.len() == 0 || crate::text::has_prefix(lowercase_of(folder_name@), lowercase_of(prefix@))),
{
    if chars_of(prefix).len() == 0 {
        return true;
    }
    let a = to_lowercase(folder_name);
    let b = to_lowercase(prefix);
    crate::text::starts_with(&chars_of(a.as_str()), &chars_of(b.as_str()))
}

/// A key the picker reacts to.
#[derive(Clone, Copy, Debug, PartialEq, Eq, Structural)]
pub enum NavKey {
    ArrowUp,
    ArrowDown,
    ArrowLeft,
    ArrowRight,
    Enter,
    Tab,
    Escape,
    Backspace,
    Other,
}

/// What happened in the picker.
#[derive(Debug)]
pub enum SelectorEvent {
    PathInputChanged(String),
    NavigateToPath(String),
    NavigateUpDirectory,
    /// An entry was clicked at the given time, in milliseconds.
    EntryClicked(FileEntryItem, u64),
    SortColumnClicked(SortColumn),
    SplitterDragStarted,
    SplitterDragEnded,
    KeyPressed(NavKey),
    ConfirmSelection,
    CancelSelection,
}

/// What the caller is to do next.
#[derive(Debug)]
pub enum SelectorAction {
    Nothing,
    /// List the folders that complete the typed path.
    ComputeSuggestions(String),
    /// Open this directory, if it is one.
    ChangeDirectory(String),
    /// Open the parent of the current directory, if it has one.
    ChangeToParent,
    /// Show a preview of this image.
    LoadPreview(String),
    ClearPreview,
    /// The user picked this image.
    Selected(String),
}

pub ghost enum ActionModel {
    Nothing,
    ComputeSuggestions(Seq<char>),
    ChangeDirectory(Seq<char>),
    ChangeToParent,
    LoadPreview(Seq<char>),
    ClearPreview,
    Selected(Seq<char>),
}

impl View for SelectorAction {
    type V = ActionModel;

    open spec fn view(&self) -> ActionModel {
        match self {
            SelectorAction::Nothing => ActionModel::Nothing,
            SelectorAction::ComputeSuggestions(s) => ActionModel::ComputeSuggestions(s@),
            SelectorAction::ChangeDirectory(s) => ActionModel::ChangeDirectory(s@),
            SelectorAction::ChangeToParent => ActionModel::ChangeToParent,
            SelectorAction::LoadPreview(s) => ActionModel::LoadPreview(s@),
            SelectorAction::ClearPreview => ActionModel::ClearPreview,
            SelectorAction::Selected(s) => ActionModel::Selected(s@),
        }
    }
}

pub ghost enum EventModel {
    PathInputChanged(Seq<char>),
    NavigateToPath(Seq<char>),
    NavigateUpDirectory,
    EntryClicked(EntryModel, u64),
    SortColumnClicked(SortColumn),
    SplitterDragStarted,
    SplitterDragEnded,
    KeyPressed(NavKey),
    ConfirmSelection,
    CancelSelection,
}

impl View for SelectorEvent {
    type V = EventModel;

    open spec fn view(&self) -> EventModel {
        match self {
            SelectorEvent::PathInputChanged(s) => EventModel::PathInputChanged(s@),
            SelectorEvent::NavigateToPath(s) => EventModel::NavigateToPath(s@),
            SelectorEvent::NavigateUpDirectory => EventModel::NavigateUpDirectory,
            SelectorEvent::EntryClicked(e, t) => EventModel::EntryClicked(e@, *t),
            SelectorEvent::SortColumnClicked(c) => EventModel::SortColumnClicked(*c),
            SelectorEvent::SplitterDragStarted => EventModel::SplitterDragStarted,
            SelectorEvent::SplitterDragEnded => EventModel::SplitterDragEnded,
            SelectorEvent::KeyPressed(k) => EventModel::KeyPressed(*k),
            SelectorEvent::ConfirmSelection => EventModel::ConfirmSelection,
            SelectorEvent::CancelSelection => EventModel::CancelSelection,
        }
    }
}

/// The picker's state apart from its preview image and panel split.
#[derive(Debug)]
pub struct FileSelectorState {
    pub current_directory: String,
    pub path_input_text: String,
    pub directory_entries: Vec<FileEntryItem>,
    pub selected_entry: Option<FileEntryItem>,
    pub last_click_ms: Option<u64>,
    pub last_clicked_path: Option<String>,
    pub active_sort_column: SortColumn,
    pub active_sort_direction: SortDirection,
    pub is_dragging_splitter: bool,
    pub autocomplete_suggestions: Vec<String>,
    pub autocomplete_selected_index: Option<usize>,
}

pub ghost struct SelectorModel {
    pub current_directory: Seq<char>,
    pub path_input_text: Seq<char>,
    pub entries: Seq<EntryModel>,
    pub selected: Option<EntryModel>,
    pub last_click_ms: Option<u64>,
    pub last_clicked_path: Option<Seq<char>>,
    pub col: SortColumn,
    pub dir: SortDirection,
    pub dragging: bool,
    pub suggestions: Seq<Seq<char>>,
    pub suggestion_index: Option<usize>,
}

pub open spec fn string_seq_view(v: Seq<String>) -> Seq<Seq<char>> {
    v.map_values(|s: String| s@)
}

impl View for FileSelectorState {
    type V = SelectorModel;

    open spec fn view(&self) -> SelectorModel {
        SelectorModel {
            current_directory: self.current_directory@,
            path_input_text: self.path_input_text@,
            entries: entries_view(self.directory_entries@),
            selected: match self.selected_entry {
                Some(e) => Some(e@),
                None => None,
            },
            last_click_ms: self.last_click_ms,
            last_clicked_path: match self.last_clicked_path {
                Some(p) => Some(p@),
                None => None,
            },
            col: self.active_sort_column,
            dir: self.active_sort_direction,
            dragging: self.is_dragging_splitter,
            suggestions: string_seq_view(self.autocomplete_suggestions@),
            suggestion_index: self.autocomplete_selected_index,
        }
    }
}

pub open spec fn clear_suggestions(m: SelectorModel) -> SelectorModel {
    SelectorModel { suggestions: Seq::empty(), suggestion_index: None, ..m }
}

/// The first position of `e` in `es`.
pub open spec fn position_of(es: Seq<EntryModel>, e: EntryModel) -> Option<int>
    decreases es.len(),
{
    if es.len() == 0 {
        None
    } else {
        match position_of(es.drop_last(), e) {
            Some(i) => Some(i),
            None => if es.last() == e {
                Some(es.len() - 1)
            } else {
                None
            },
        }
    }
}

/// Selects the entry at `idx`, asking for its preview.
pub open spec fn select_at(m: SelectorModel, idx: int) -> (SelectorModel, ActionModel) {
    if 0 <= idx < m.entries.len() {
        let e = m.entries[idx];
        (
            SelectorModel { selected: Some(e), ..m },
            if e.kind == FileEntryKind::SupportedImage {
                ActionModel::LoadPreview(e.path)
            } else {
                ActionModel::ClearPreview
            },
        )
    } else {
        (m, ActionModel::Nothing)
    }
}

pub open spec fn selected_position(m: SelectorModel) -> Option<int> {
    match m.selected {
        Some(e) => position_of(m.entries, e),
        None => None,
    }
}

pub open spec fn select_previous(m: SelectorModel) -> (SelectorModel, ActionModel) {
    if m.entries.len() == 0 {
        (m, ActionModel::Nothing)
    } else {
        let idx = match selected_position(m) {
            Some(i) => if i > 0 {
                i - 1
            } else {
                0
            },
            None => 0,
        };
        select_at(m, idx)
    }
}

pub open spec fn select_next(m: SelectorModel) -> (SelectorModel, ActionModel) {
    if m.entries.len() == 0 {
        (m, ActionModel::Nothing)
    } else {
        let max = m.entries.len() - 1;
        let idx = match selected_position(m) {
            Some(i) => if i < max {
                i + 1
            } else {
                max
            },
            None => 0,
        };
        select_at(m, idx)
    }
}

/// A key on the entry list.
pub open spec fn list_key(m: SelectorModel, key: NavKey) -> (SelectorModel, ActionModel) {
    match key {
        NavKey::ArrowUp => select_previous(m),
        NavKey::ArrowDown => select_next(m),
        NavKey::ArrowRight | NavKey::Enter => match m.selected {
            Some(e) => if e.kind == FileEntryKind::Directory {
                (m, ActionModel::ChangeDirectory(e.path))
            } else {
                (m, ActionModel::Selected(e.path))
            },
            None => (m, ActionModel::Nothing),
        },
        NavKey::ArrowLeft | NavKey::Backspace => (m, ActionModel::ChangeToParent),
        _ => (m, ActionModel::Nothing),
    }
}

/// A key: the open suggestion list takes the arrows, Tab, Enter and
/// Escape; the entry list takes the rest.
pub open spec fn key_step(m: SelectorModel, key: NavKey) -> (SelectorModel, ActionModel) {
    if m.suggestions.len() > 0 {
        let cur: int = match m.suggestion_index {
            Some(i) => i as int,
            None => 0,
        };
        match key {
            NavKey::ArrowDown => {
                let next = if cur + 1 < m.suggestions.len() - 1 { cur + 1 } else { m.suggestions.len() - 1 };
                (SelectorModel { suggestion_index: Some(next as usize), ..m }, ActionModel::Nothing)
            },
            NavKey::ArrowUp => (
                SelectorModel { suggestion_index: Some((if cur > 0 { cur - 1 } else { 0 }) as usize), ..m },
                ActionModel::Nothing,
            ),
            NavKey::Tab | NavKey::Enter => match m.suggestion_index {
                Some(i) => if (i as int) < m.suggestions.len() {
                    (clear_suggestions(m), ActionModel::ChangeDirectory(m.suggestions[i as int]))
                } else {
                    list_key(m, key)
                },
                None => list_key(m, key),
            },
            NavKey::Escape => (clear_suggestions(m), ActionModel::Nothing),
            _ => list_key(m, key),
        }
    } else {
        list_key(m, key)
    }
}

/// The sort order after clicking a column header: the same column flips
/// direction, another column sorts ascending.
pub open spec fn next_sort(m: SelectorModel, c: SortColumn) -> (SortColumn, SortDirection) {
    if m.col == c {
        (c, if m.dir == SortDirection::Ascending { SortDirection::Descending } else { SortDirection::Ascending })
    } else {
        (c, SortDirection::Ascending)
    }
}

/// The picker's answer to an event other than a column click.
pub open spec fn selector_step(m: SelectorModel, e: EventModel) -> (SelectorModel, ActionModel) {
    match e {
        EventModel::PathInputChanged(s) => {
            let m1 = SelectorModel { path_input_text: s, ..m };
            if s.len() == 0 {
                (clear_suggestions(m1), ActionModel::Nothing)
            } else {
                (m1, ActionModel::ComputeSuggestions(s))
            }
        },
        EventModel::NavigateToPath(p) => (clear_suggestions(m), ActionModel::ChangeDirectory(p)),
        EventModel::NavigateUpDirectory => (clear_suggestions(m), ActionModel::ChangeToParent),
        EventModel::EntryClicked(entry, now) => {
            let double = is_double_click(m.last_clicked_path, entry.path, m.last_click_ms, now);
            let m2 = SelectorModel {
                last_click_ms: Some(now),
                last_clicked_path: Some(entry.path),
                ..clear_suggestions(m)
            };
            if entry.kind == FileEntryKind::Directory {
                if double {
                    (m2, ActionModel::ChangeDirectory(entry.path))
                } else {
                    (SelectorModel { selected: Some(entry), ..m2 }, ActionModel::ClearPreview)
                }
            } else {
                (SelectorModel { selected: Some(entry), ..m2 }, ActionModel::LoadPreview(entry.path))
            }
        },
        EventModel::SortColumnClicked(_) => (m, ActionModel::Nothing),
        EventModel::SplitterDragStarted => (SelectorModel { dragging: true, ..m }, ActionModel::Nothing),
        EventModel::SplitterDragEnded => (SelectorModel { dragging: false, ..m }, ActionModel::Nothing),
        EventModel::KeyPressed(k) => key_step(m, k),
        EventModel::ConfirmSelection => match m.selected {
            Some(s) => if s.kind == FileEntryKind::SupportedImage {
                (m, ActionModel::Selected(s.path))
            } else {
                (m, ActionModel::Nothing)
            },
            None => (m, ActionModel::Nothing),
        },
        EventModel::CancelSelection => (m, ActionModel::Nothing),
    }
}

/// Whether `(m2, a)` is the picker's answer to `e` in state `m`; a column
/// click re-sorts the entries stably in the new order.
pub open spec fn selector_step_ok(m: SelectorModel, e: EventModel, m2: SelectorModel, a: ActionModel) -> bool {
    match e {
        EventModel::SortColumnClicked(c) => {
            let (col, dir) = next_sort(m, c);
            &&& m2 == SelectorModel { col, dir, entries: m2.entries, ..m }
            &&& is_stable_sort_of(m.entries, m2.entries, col, dir)
            &&& a == ActionModel::Nothing
        },
        _ => (m2, a) == selector_step(m, e),
    }
}

/// Whether two entries are equal in every field.
pub fn same_entry(a: &FileEntryItem, b: &FileEntryItem) -> (res: bool)
    ensures
        res == (a@ == b@),
{
    let an = chars_of(a.name.as_str());
    let bn = chars_of(b.name.as_str());
    let ap = chars_of(a.path.as_str());
    let bp = chars_of(b.path.as_str());
    chars_eq(&an, &bn) && chars_eq(&ap, &bp) && a.kind == b.kind && a.size_bytes == b.size_bytes
        && a.modified_time == b.modified_time
}

fn clone_string(s: &String) -> (res: String)
    ensures
        res@ == s@,
{
    let cs = chars_of(s.as_str());
    string_of(&cs)
}

impl FileSelectorState {
    /// A picker showing `entries` of `starting_directory`, by name ascending.
    pub fn new(starting_directory: String, entries: Vec<FileEntryItem>) -> (res: Self)
        ensures
            res@.current_directory == starting_directory@,
            res@.path_input_text == starting_directory@,
            is_stable_sort_of(entries_view(entries@), res@.entries, SortColumn::Name, SortDirection::Ascending),
            res@.selected is None,
            res@.last_click_ms is None,
            res@.last_clicked_path is None,
            res@.col == SortColumn::Name,
            res@.dir == SortDirection::Ascending,
            !res@.dragging,
            res@.suggestions.len() == 0,
            res@.suggestion_index is None,
    {
        let mut entries = entries;
        sort_entries(&mut entries, SortColumn::Name, SortDirection::Ascending);
        let path_text = clone_string(&starting_directory);
        let res = FileSelectorState {
            current_directory: starting_directory,
            path_input_text: path_text,
            directory_entries: entries,
            selected_entry: None,
            last_click_ms: None,
            last_clicked_path: None,
            active_sort_column: SortColumn::Name,
            active_sort_direction: SortDirection::Ascending,
            is_dragging_splitter: false,
            autocomplete_suggestions: Vec::new(),
            autocomplete_selected_index: None,
        };
        assert(string_seq_view(res.autocomplete_suggestions@) =~= Seq::<Seq<char>>::empty());
        res
    }

    fn clear_suggestions(&mut self)
        ensures
            final(self)@ == clear_suggestions(old(self)@),
    {
        self.autocomplete_suggestions = Vec::new();
        self.autocomplete_selected_index = None;
        assert(string_seq_view(self.autocomplete_suggestions@) =~= Seq::<Seq<char>>::empty());
    }

    fn current_selected_index(&self) -> (res: Option<usize>)
        ensures
            match res {
                Some(i) => selected_position(self@) == Some(i as int),
                None => selected_position(self@) == None::<int>,
            },
    {
        match self.selected_entry.as_ref() {
            None => None,
            Some(sel) => {
                assert(self@.selected == Some(sel@));
                let mut k: usize = 0;
                let ghost es = self@.entries;
                while k < self.directory_entries.len()
                    invariant
                        k <= self.directory_entries@.len(),
                        es == entries_view(self.directory_entries@),
                        es == self@.entries,
                        self@.selected == Some(sel@),
                        position_of(es.subrange(0, k as int), sel@) == None::<int>,
                    decreases self.directory_entries@.len() - k,
                {
                    let ghost next = es.subrange(0, k + 1);
                    assert(next.drop_last() =~= es.subrange(0, k as int));
                    assert(next.last() == self.directory_entries@[k as int]@);
                    if same_entry(&self.directory_entries[k], sel) {
                        proof {
                            assert(es[k as int] == self.directory_entries@[k as int]@);
                            lemma_position_of_prefix(es, sel@, k + 1);
                            assert(self@.selected == Some(sel@));
                        }
                        return Some(k);
                    }
                    k = k + 1;
                }
                assert(es.subrange(0, k as int) =~= es);
                None
            },
        }
    }

    fn apply_selection_by_index(&mut self, index: usize) -> (res: SelectorAction)
        ensures
            (final(self)@, res@) == select_at(old(self)@, index as int),
    {
        if index < self.directory_entries.len() {
            let entry = self.directory_entries[index].clone();
            let action = if entry.kind == FileEntryKind::SupportedImage {
                SelectorAction::LoadPreview(clone_string(&entry.path))
            } else {
                SelectorAction::ClearPreview
            };
            self.selected_entry = Some(entry);
            action
        } else {
            SelectorAction::Nothing
        }
    }

    fn select_previous_entry(&mut self) -> (res: SelectorAction)
        ensures
            (final(self)@, res@) == select_previous(old(self)@),
    {
        if self.directory_entries.len() == 0 {
            return SelectorAction::Nothing;
        }
        let new_index = match self.current_selected_index() {
            Some(idx) => if idx > 0 {
                idx - 1
            } else {
                0
            },
            None => 0,
        };
        self.apply_selection_by_index(new_index)
    }

    fn select_next_entry(&mut self) -> (res: SelectorAction)
        ensures
            (final(self)@, res@) == select_next(old(self)@),
    {
        if self.directory_entries.len() == 0 {
            return SelectorAction::Nothing;
        }
        let max_index = self.directory_entries.len() - 1;
        let new_index = match self.current_selected_index() {
            Some(idx) => if idx < max_index {
                idx + 1
            } else {
                max_index
            },
            None => 0,
        };
        self.apply_selection_by_index(new_index)
    }

    fn list_key(&mut self, key: NavKey) -> (res: SelectorAction)
        ensures
            (final(self)@, res@) == list_key(old(self)@, key),
    {
        match key {
            NavKey::ArrowUp => self.select_previous_entry(),
            NavKey::ArrowDown => self.select_next_entry(),
            NavKey::ArrowRight | NavKey::Enter => match &self.selected_entry {
                Some(entry) => {
                    if entry.kind == FileEntryKind::Directory {
                        SelectorAction::ChangeDirectory(clone_string(&entry.path))
                    } else {
                        SelectorAction::Selected(clone_string(&entry.path))
                    }
                },
                None => SelectorAction::Nothing,
            },
            NavKey::ArrowLeft | NavKey::Backspace => SelectorAction::ChangeToParent,
            _ => SelectorAction::Nothing,
        }
    }

    /// The picker's answer to a key.
    pub fn handle_key_navigation(&mut self, key: NavKey) -> (res: SelectorAction)
        ensures
            (final(self)@, res@) == key_step(old(self)@, key),
    {
        if self.autocomplete_suggestions.len() > 0 {
            let len = self.autocomplete_suggestions.len();
            let current = match self.autocomplete_selected_index {
                Some(i) => i,
                None => 0,
            };
            match key {
                NavKey::ArrowDown => {
                    let next = if current < len - 1 && current + 1 < len - 1 {
                        current + 1
                    } else {
                        len - 1
                    };
                    self.autocomplete_selected_index = Some(next);
                    return SelectorAction::Nothing;
                },
                NavKey::ArrowUp => {
                    let prev = if current > 0 {
                        current - 1
                    } else {
                        0
                    };
                    self.autocomplete_selected_index = Some(prev);
                    return SelectorAction::Nothing;
                },
                NavKey::Tab | NavKey::Enter => {
                    if let Some(idx) = self.autocomplete_selected_index {
                        if idx < len {
                            let target = clone_string(&self.autocomplete_suggestions[idx]);
                            assert(target@ == self@.suggestions[idx as int]);
                            self.clear_suggestions();
                            return SelectorAction::ChangeDirectory(target);
                        }
                    }
                },
                NavKey::Escape => {
                    self.clear_suggestions();
                    return SelectorAction::Nothing;
                },
                _ => {},
            }
        }
        self.list_key(key)
    }

    /// The picker's answer to an event: its new state and what the caller
    /// is to do next.
    pub fn update(&mut self, event: SelectorEvent) -> (res: SelectorAction)
        ensures
            selector_step_ok(old(self)@, event@, final(self)@, res@),
    {
        match event {
            SelectorEvent::PathInputChanged(new_path) => {
                let text = chars_of(new_path.as_str());
                self.path_input_text = clone_string(&new_path);
                if text.len() == 0 {
                    self.clear_suggestions();
                    SelectorAction::Nothing
                } else {
                    SelectorAction::ComputeSuggestions(new_path)
                }
            },
            SelectorEvent::NavigateToPath(target) => {
                self.clear_suggestions();
                SelectorAction::ChangeDirectory(target)
            },
            SelectorEvent::NavigateUpDirectory => {
                self.clear_suggestions();
                SelectorAction::ChangeToParent
            },
            SelectorEvent::SortColumnClicked(clicked) => {
                if self.active_sort_column == clicked {
                    self.active_sort_direction = match self.active_sort_direction {
                        SortDirection::Ascending => SortDirection::Descending,
                        SortDirection::Descending => SortDirection::Ascending,
                    };
                } else {
                    self.active_sort_column = clicked;
                    self.active_sort_direction = SortDirection::Ascending;
                }
                sort_entries(&mut self.directory_entries, self.active_sort_column, self.active_sort_direction);
                SelectorAction::Nothing
            },
            SelectorEvent::SplitterDragStarted => {
                self.is_dragging_splitter = true;
                SelectorAction::Nothing
            },
            SelectorEvent::SplitterDragEnded => {
                self.is_dragging_splitter = false;
                SelectorAction::Nothing
            },
            SelectorEvent::KeyPressed(key) => self.handle_key_navigation(key),
            SelectorEvent::EntryClicked(clicked, now) => {
                self.clear_suggestions();
                let is_double = check_if_double_click(&self.last_clicked_path, clicked.path.as_str(), self.last_click_ms, now);
                self.last_click_ms = Some(now);
                self.last_clicked_path = Some(clone_string(&clicked.path));
                if clicked.kind == FileEntryKind::Directory {
                    if is_double {
                        SelectorAction::ChangeDirectory(clicked.path)
                    } else {
                        self.selected_entry = Some(clicked);
                        SelectorAction::ClearPreview
                    }
                } else {
                    let path = clone_string(&clicked.path);
                    self.selected_entry = Some(clicked);
                    SelectorAction::LoadPreview(path)
                }
            },
            SelectorEvent::ConfirmSelection => {
                match &self.selected_entry {
                    Some(entry) => if entry.kind == FileEntryKind::SupportedImage {
                        SelectorAction::Selected(clone_string(&entry.path))
                    } else {
                        SelectorAction::Nothing
                    },
                    None => SelectorAction::Nothing,
                }
            },
            SelectorEvent::CancelSelection => SelectorAction::Nothing,
        }
    }

    /// Shows the directory the caller opened: its path, its entries in the
    /// current order, and no selection.
    pub fn apply_directory(&mut self, directory: String, entries: Vec<FileEntryItem>)
        ensures
            final(self)@.current_directory == directory@,
            final(self)@.path_input_text == directory@,
            is_stable_sort_of(entries_view(entries@), final(self)@.entries, old(self)@.col, old(self)@.dir),
            final(self)@.selected is None,
            final(self)@ == (SelectorModel {
                current_directory: directory@,
                path_input_text: directory@,
                entries: final(self)@.entries,
                selected: None,
                ..old(self)@
            }),
    {
        let mut entries = entries;
        sort_entries(&mut entries, self.active_sort_column, self.active_sort_direction);
        self.path_input_text = clone_string(&directory);
        self.current_directory = directory;
        self.directory_entries = entries;
        self.selected_entry = None;
    }

    /// Offers the folders the caller found for the typed path, the first
    /// one highlighted.
    pub fn set_suggestions(&mut self, matches: Vec<String>)
        ensures
            final(self)@ == (SelectorModel {
                suggestions: string_seq_view(matches@),
                suggestion_index: if matches@.len() == 0 { None } else { Some(0usize) },
                ..old(self)@
            }),
    {
        let empty = matches.len() == 0;
        self.autocomplete_suggestions = matches;
        self.autocomplete_selected_index = if empty {
            None
        } else {
            Some(0)
        };
    }
}

proof fn lemma_position_of_prefix(es: Seq<EntryModel>, e: EntryModel, k: int)
    requires
        0 < k <= es.len(),
        position_of(es.subrange(0, k - 1), e) == None::<int>,
        es[k - 1] == e,
    ensures
        position_of(es, e) == Some(k - 1),
    decreases es.len() - k,
{
    let sub = es.subrange(0, k);
    assert(sub.drop_last() =~= es.subrange(0, k - 1));
    assert(position_of(sub, e) == Some(k - 1));
    if k < es.len() {
        lemma_position_of_extend(es, e, k, k - 1);
    } else {
        assert(sub =~= es);
    }
}

proof fn lemma_position_of_extend(es: Seq<EntryModel>, e: EntryModel, k: int, j: int)
    requires
        0 < k <= es.len(),
        position_of(es.subrange(0, k), e) == Some(j),
    ensures
        position_of(es, e) == Some(j),
    decreases es.len() - k,
{
    if k < es.len() {
        let next = es.subrange(0, k + 1);
        assert(next.drop_last() =~= es.subrange(0, k));
        assert(position_of(next, e) == Some(j));
        lemma_position_of_extend(es, e, k + 1, j);
    } else {
        assert(es.subrange(0, k) =~= es);
    }
}

/// How the picker is shown.
pub struct FileSelectorView;

/// The shade of an entry row.
#[derive(Clone, Copy, Debug, PartialEq, Eq, Structural)]
pub enum RowShade {
    Selected,
    Even,
    Odd,
}

pub open spec fn folder_selected_text() -> Seq<char> {
    seq!['K', 'l', 'a', 's', 'ö', 'r', ' ', 'S', 'e', 'ç', 'i', 'l', 'd', 'i']
}

pub open spec fn no_preview_text() -> Seq<char> {
    seq!['Ö', 'n', ' ', 'İ', 'z', 'l', 'e', 'm', 'e', ' ', 'Y', 'o', 'k']
}

impl FileSelectorView {
    /// The text shown where no preview is: a selected folder says so.
    pub fn preview_placeholder(selected: &Option<FileEntryItem>) -> (res: &'static str)
        ensures
            res@ == (match selected {
                Some(e) => if e.kind == FileEntryKind::Directory { folder_selected_text() } else { no_preview_text() },
                None => no_preview_text(),
            }),
    {
        let is_folder = match selected {
            Some(e) => e.kind == FileEntryKind::Directory,
            None => false,
        };
        if is_folder {
            proof {
                reveal_strlit("Klasör Seçildi");
            }
            "Klasör Seçildi"
        } else {
            proof {
                reveal_strlit("Ön İzleme Yok");
            }
            "Ön İzleme Yok"
        }
    }

    /// Whether the confirm button is enabled: an image is selected.
    pub fn is_image_selected(selected: &Option<FileEntryItem>) -> (res: bool)
        ensures
            res == (match selected {
                Some(e) => e.kind == FileEntryKind::SupportedImage,
                None => false,
            }),
    {
        match selected {
            Some(e) => e.kind == FileEntryKind::SupportedImage,
            None => false,
        }
    }

    /// The shade of the row at `index`.
    pub fn row_shade(index: usize, is_selected: bool) -> (res: RowShade)
        ensures
            res == (if is_selected { RowShade::Selected } else if index % 2 == 0 { RowShade::Even } else { RowShade::Odd }),
    {
        if is_selected {
            RowShade::Selected
        } else if index % 2 == 0 {
            RowShade::Even
        } else {
            RowShade::Odd
        }
    }

    /// Whether a column header shows the sort arrow, and which way it points
    /// (`true` for ascending).
    pub fn sort_indicator(active_col: SortColumn, active_dir: SortDirection, col: SortColumn) -> (res: Option<bool>)
        ensures
            res == (if active_col == col { Some(active_dir == SortDirection::Ascending) } else { None::<bool> }),
    {
        if active_col == col {
            Some(active_dir == SortDirection::Ascending)
        } else {
            None
        }
    }
}

} // verus!
