//! Stored node images: the `images.md` document, which maps image ids to
//! base64-encoded PNG data, and the encoding itself.
use vstd::prelude::*;
use base64::Engine;
use crate::file_selector::{char_seq_order, char_seq_order_exec, lemma_char_seq_order_props, lemma_char_seq_order_trans};
use crate::ids::{format_uuid, uuid_hyphenated};
use crate::models::FocusNode;
use crate::records::{push_terminated, terminated};
use crate::text::{
    chars_eq, chars_of, has_prefix, lines, slice_chars, slice_chars_all, split_lines, starts_with, string_of, trim,
    trim_end_char, trim_exec, views,
};

verus! {

/// The text `base64::engine::general_purpose::STANDARD.encode` gives for
/// some bytes.
pub uninterp spec fn base64_text(bytes: Seq<u8>) -> Seq<char>;

/// The bytes `base64::engine::general_purpose::STANDARD.decode` gives for
/// a text, if it decodes.
pub uninterp spec fn base64_bytes(text: Seq<char>) -> Option<Seq<u8>>;

/// The PNG file the `image` crate writes for an RGBA pixel buffer of
/// exactly four bytes per pixel, or none where its encoder refuses it.
pub uninterp spec fn png_encoding(width: u32, height: u32, rgba: Seq<u8>) -> Option<Seq<u8>>;

/// Whether the base64 length of `n` bytes fits in a `usize`.
pub open spec fn base64_len_fits(n: nat) -> bool {
    (n / 3) * 4 + (if n % 3 > 0 { 4int } else { 0 }) <= usize::MAX
}

/// Encodes bytes with the standard padded base64 alphabet
/// (`STANDARD.encode`). Claimed: the text is the named function of the
/// bytes, and decoding it gives the bytes back.
#[verifier::external_body]
fn base64_encode(bytes: &[u8]) -> (res: String)
    requires
        base64_len_fits(bytes@.len()),
    ensures
        res@ == base64_text(bytes@),
        base64_bytes(res@) == Some(bytes@),
{
    base64::engine::general_purpose::STANDARD.encode(bytes)
}

/// Decodes standard padded base64 (`STANDARD.decode`). Claimed: the
/// result is the named function of the text.
#[verifier::external_body]
fn base64_decode(text: &str) -> (res: Option<Vec<u8>>)
    ensures
        match res {
            Some(b) => base64_bytes(text@) == Some(b@),
            None => base64_bytes(text@) == None::<Seq<u8>>,
        },
{
    base64::engine::general_purpose::STANDARD.decode(text).ok()
}

/// Writes an RGBA pixel buffer as PNG with the `image` crate
/// (`RgbaImage::from_raw`, then `DynamicImage::write_to` in memory). The
/// buffer must hold exactly four bytes per pixel: `from_raw` refuses a
/// shorter one and the PNG encoder asserts on a longer one. Claimed: the
/// outcome, file or refusal, is the named function of the pixels.
#[verifier::external_body]
fn png_encode_rgba(width: u32, height: u32, rgba: Vec<u8>) -> (res: Result<Vec<u8>, String>)
    requires
        rgba@.len() == 4 * width * height,
    ensures
        match res {
            Ok(b) => png_encoding(width, height, rgba@) == Some(b@),
            Err(_) => png_encoding(width, height, rgba@) is None,
        },
{
    let canvas = match image::RgbaImage::from_raw(width, height, rgba) {
        Some(c) => c,
        None => return Err(String::from("buffer size")),
    };
    let mut png_bytes: Vec<u8> = Vec::new();
    match image::DynamicImage::ImageRgba8(canvas).write_to(&mut std::io::Cursor::new(&mut png_bytes), image::ImageFormat::Png) {
        Ok(()) => Ok(png_bytes),
        Err(err) => Err(err.to_string()),
    }
}

/// The base64 text of the PNG file of an RGBA pixel buffer: none unless
/// the buffer holds four bytes per pixel, the encoder accepts it, and the
/// text's length fits in a `usize`.
pub open spec fn png_base64_text(width: u32, height: u32, rgba: Seq<u8>) -> Option<Seq<char>> {
    if rgba.len() != 4 * width * height {
        None
    } else {
        match png_encoding(width, height, rgba) {
            Some(p) => if base64_len_fits(p.len()) {
                Some(base64_text(p))
            } else {
                None
            },
            None => None,
        }
    }
}

/// `"- data: \""`.
pub open spec fn data_prefix() -> Seq<char> {
    seq!['-', ' ', 'd', 'a', 't', 'a', ':', ' ', '"']
}

pub open spec fn section_prefix() -> Seq<char> {
    seq!['#', '#', ' ']
}

/// Entries in strictly increasing id order.
pub open spec fn keys_increasing(pairs: Seq<(Seq<char>, Seq<char>)>) -> bool {
    forall|i: int, j: int| 0 <= i < j < pairs.len() ==> char_seq_order(#[trigger] pairs[i].0, #[trigger] pairs[j].0) < 0
}

/// The map the entries describe.
pub open spec fn pairs_map(pairs: Seq<(Seq<char>, Seq<char>)>) -> Map<Seq<char>, Seq<char>>
    decreases pairs.len(),
{
    if pairs.len() == 0 {
        Map::empty()
    } else {
        pairs_map(pairs.drop_last()).insert(pairs.last().0, pairs.last().1)
    }
}

/// Image data by image id, kept in id order.
#[derive(Debug)]
pub struct ImageMap {
    entries: Vec<(Vec<char>, Vec<char>)>,
}

impl ImageMap {
    /// The entries, in id order.
    pub closed spec fn pairs(&self) -> Seq<(Seq<char>, Seq<char>)> {
        self.entries@.map_values(|e: (Vec<char>, Vec<char>)| (e.0@, e.1@))
    }

    /// The map from ids to data.
    pub open spec fn view_map(&self) -> Map<Seq<char>, Seq<char>> {
        pairs_map(self.pairs())
    }

    pub open spec fn wf(&self) -> bool {
        keys_increasing(self.pairs())
    }

    /// An empty map.
    pub fn new() -> (res: Self)
        ensures
            res.wf(),
            res.pairs().len() == 0,
    {
        let res = ImageMap { entries: Vec::new() };
        assert(res.pairs() =~= Seq::<(Seq<char>, Seq<char>)>::empty());
        res
    }

    /// The number of images.
    pub fn len(&self) -> (res: usize)
        ensures
            res == self.pairs().len(),
    {
        self.entries.len()
    }

    /// The id and data of the `i`-th image in id order.
    pub fn entry(&self, i: usize) -> (res: (String, String))
        requires
            i < self.pairs().len(),
        ensures
            (res.0@, res.1@) == self.pairs()[i as int],
    {
        (string_of(&self.entries[i].0), string_of(&self.entries[i].1))
    }

    /// The data stored for `id`.
    pub fn get(&self, id: &str) -> (res: Option<String>)
        requires
            self.wf(),
        ensures
            match res {
                Some(d) => self.view_map().contains_key(id@) && self.view_map()[id@] == d@,
                None => !self.view_map().contains_key(id@),
            },
    {
        let key = chars_of(id);
        let mut i: usize = 0;
        while i < self.entries.len()
            invariant
                i <= self.entries@.len(),
                self.wf(),
                key@ == id@,
                forall|k: int| 0 <= k < i ==> self.pairs()[k].0 != key@,
            decreases self.entries@.len() - i,
        {
            if chars_eq(&self.entries[i].0, &key) {
                proof {
                    assert(self.pairs()[i as int].0 == key@);
                    lemma_pairs_map_at(self.pairs(), i as int);
                }
                return Some(string_of(&self.entries[i].1));
            }
            i = i + 1;
        }
        proof {
            lemma_pairs_map_absent(self.pairs(), key@);
        }
        None
    }

    /// Stores `data` under `id`, replacing what was there.
    pub fn insert(&mut self, id: &str, data: &str)
        requires
            old(self).wf(),
        ensures
            final(self).wf(),
            final(self).view_map() == old(self).view_map().insert(id@, data@),
    {
        let key = chars_of(id);
        let value = chars_of(data);
        let ghost old_pairs = self.pairs();
        let mut p: usize = 0;
        while p < self.entries.len() && char_seq_order_exec(&self.entries[p].0, &key) < 0
            invariant
                p <= self.entries@.len(),
                self.pairs() == old_pairs,
                keys_increasing(old_pairs),
                forall|k: int| 0 <= k < p ==> char_seq_order(old_pairs[k].0, key@) < 0,
            decreases self.entries@.len() - p,
        {
            p = p + 1;
        }
        if p < self.entries.len() && chars_eq(&self.entries[p].0, &key) {
            self.entries.set(p, (key, value));
            proof {
                let np = self.pairs();
                assert(np =~= old_pairs.update(p as int, (key@, value@)));
                lemma_pairs_map_update(old_pairs, p as int, value@);
                assert forall|i: int, j: int| 0 <= i < j < np.len() implies char_seq_order(#[trigger] np[i].0, #[trigger] np[j].0) < 0 by {
                    assert(np[i].0 == old_pairs[i].0 && np[j].0 == old_pairs[j].0);
                }
            }
        } else {
            self.entries.insert(p, (key, value));
            proof {
                let np = self.pairs();
                assert(np =~= old_pairs.insert(p as int, (key@, value@)));
                if p < old_pairs.len() {
                    lemma_char_seq_order_props(key@, old_pairs[p as int].0);
                }
                assert forall|i: int, j: int| 0 <= i < j < np.len() implies char_seq_order(#[trigger] np[i].0, #[trigger] np[j].0) < 0 by {
                    if j < p {
                        assert(np[i] == old_pairs[i] && np[j] == old_pairs[j]);
                    } else if j == p {
                        assert(np[i] == old_pairs[i]);
                    } else if i == p {
                        assert(np[j] == old_pairs[j - 1]);
                        if j - 1 > p {
                            lemma_char_seq_order_trans(key@, old_pairs[p as int].0, old_pairs[j - 1].0);
                        }
                    } else if i < p {
                        assert(np[i] == old_pairs[i] && np[j] == old_pairs[j - 1]);
                    } else {
                        assert(np[i] == old_pairs[i - 1] && np[j] == old_pairs[j - 1]);
                    }
                }
                assert forall|i: int| 0 <= i < old_pairs.len() implies old_pairs[i].0 != key@ by {
                    if i < p {
                        lemma_char_seq_order_props(old_pairs[i].0, key@);
                    } else {
                        assert(old_pairs[p as int].0 != key@);
                        lemma_char_seq_order_props(old_pairs[p as int].0, key@);
                        if i > p {
                            lemma_char_seq_order_trans(key@, old_pairs[p as int].0, old_pairs[i].0);
                            lemma_char_seq_order_props(key@, old_pairs[i].0);
                        }
                    }
                }
                lemma_pairs_map_insert_new(old_pairs, p as int, key@, value@);
            }
        }
    }

    /// Keeps the images some node shows.
    pub fn retain_active(&mut self, nodes: &Vec<FocusNode>)
        requires
            old(self).wf(),
        ensures
            final(self).wf(),
            final(self).pairs() == old(self).pairs().filter(|e: (Seq<char>, Seq<char>)| is_active_image(nodes@, e.0)),
    {
        let ghost old_pairs = self.pairs();
        let ghost f = |e: (Seq<char>, Seq<char>)| is_active_image(nodes@, e.0);
        let mut kept: Vec<(Vec<char>, Vec<char>)> = Vec::new();
        let mut i: usize = 0;
        assert(old_pairs.subrange(0, 0).filter(f) =~= Seq::<(Seq<char>, Seq<char>)>::empty()) by {
            reveal(Seq::filter);
        }
        while i < self.entries.len()
            invariant
                i <= self.entries@.len(),
                self.pairs() == old_pairs,
                f == (|e: (Seq<char>, Seq<char>)| is_active_image(nodes@, e.0)),
                kept@.map_values(|e: (Vec<char>, Vec<char>)| (e.0@, e.1@)) == old_pairs.subrange(0, i as int).filter(f),
            decreases self.entries@.len() - i,
        {
            let ghost pre = old_pairs.subrange(0, i as int);
            assert(old_pairs.subrange(0, i + 1) =~= pre.push(old_pairs[i as int]));
            proof {
                pre.lemma_filter_push(old_pairs[i as int], f);
            }
            let active = image_id_in_use(nodes, &self.entries[i].0);
            if active {
                let ghost before = kept@.map_values(|e: (Vec<char>, Vec<char>)| (e.0@, e.1@));
                kept.push((slice_chars_all(&self.entries[i].0), slice_chars_all(&self.entries[i].1)));
                assert(kept@.map_values(|e: (Vec<char>, Vec<char>)| (e.0@, e.1@)) =~= before.push(old_pairs[i as int]));
            }
            i = i + 1;
        }
        assert(old_pairs.subrange(0, old_pairs.len() as int) =~= old_pairs);
        self.entries = kept;
        proof {
            let np = self.pairs();
            lemma_filter_keeps_increasing(old_pairs, f);
        }
    }
}

/// Whether `n` shows the image with this id text.
pub open spec fn shows_image(n: FocusNode, id: Seq<char>) -> bool {
    n.image_id matches Some(m) && uuid_hyphenated(m) == id
}

/// Whether some node shows the image with this id text.
pub open spec fn is_active_image(nodes: Seq<FocusNode>, id: Seq<char>) -> bool {
    exists|i: int| 0 <= i < nodes.len() && shows_image(#[trigger] nodes[i], id)
}

fn image_id_in_use(nodes: &Vec<FocusNode>, id: &[char]) -> (res: bool)
    ensures
        res == is_active_image(nodes@, id@),
{
    let mut i: usize = 0;
    while i < nodes.len()
        invariant
            i <= nodes@.len(),
            forall|k: int| 0 <= k < i ==> !shows_image(#[trigger] nodes@[k], id@),
        decreases nodes@.len() - i,
    {
        match nodes[i].image_id {
            Some(m) => {
                let text = format_uuid(m);
                if chars_eq(&chars_of(text.as_str()), id) {
                    return true;
                }
            },
            None => {},
        }
        i = i + 1;
    }
    false
}

proof fn lemma_filter_keeps_increasing(pairs: Seq<(Seq<char>, Seq<char>)>, f: spec_fn((Seq<char>, Seq<char>)) -> bool)
    requires
        keys_increasing(pairs),
    ensures
        keys_increasing(pairs.filter(f)),
    decreases pairs.len(),
{
    reveal(Seq::filter);
    if pairs.len() > 0 {
        let pre = pairs.drop_last();
        assert forall|i: int, j: int| 0 <= i < j < pre.len() implies char_seq_order(#[trigger] pre[i].0, #[trigger] pre[j].0) < 0 by {
            assert(pre[i] == pairs[i] && pre[j] == pairs[j]);
        }
        lemma_filter_keeps_increasing(pre, f);
        let fp = pre.filter(f);
        if f(pairs.last()) {
            let r = fp.push(pairs.last());
            assert forall|i: int, j: int| 0 <= i < j < r.len() implies char_seq_order(#[trigger] r[i].0, #[trigger] r[j].0) < 0 by {
                if j == r.len() - 1 {
                    assert(pre.filter(f).contains(r[i])) by {
                        assert(fp[i] == r[i]);
                    }
                    pre.lemma_filter_contains_rev(f, r[i]);
                    let k = choose|k: int| 0 <= k < pre.len() && pre[k] == r[i];
                    assert(pairs[k] == pre[k]);
                    assert(pairs[pairs.len() - 1] == pairs.last());
                } else {
                    assert(r[i] == fp[i] && r[j] == fp[j]);
                }
            }
        }
    }
}

proof fn lemma_pairs_map_at(pairs: Seq<(Seq<char>, Seq<char>)>, i: int)
    requires
        keys_increasing(pairs),
        0 <= i < pairs.len(),
    ensures
        pairs_map(pairs).contains_key(pairs[i].0),
        pairs_map(pairs)[pairs[i].0] == pairs[i].1,
    decreases pairs.len(),
{
    if i < pairs.len() - 1 {
        let pre = pairs.drop_last();
        assert forall|a: int, b: int| 0 <= a < b < pre.len() implies char_seq_order(#[trigger] pre[a].0, #[trigger] pre[b].0) < 0 by {
            assert(pre[a] == pairs[a] && pre[b] == pairs[b]);
        }
        lemma_pairs_map_at(pre, i);
        assert(char_seq_order(pairs[i].0, pairs[pairs.len() - 1].0) < 0);
        lemma_char_seq_order_props(pairs[i].0, pairs[pairs.len() - 1].0);
        assert(pre[i] == pairs[i]);
    }
}

proof fn lemma_pairs_map_absent(pairs: Seq<(Seq<char>, Seq<char>)>, key: Seq<char>)
    requires
        forall|k: int| 0 <= k < pairs.len() ==> pairs[k].0 != key,
    ensures
        !pairs_map(pairs).contains_key(key),
    decreases pairs.len(),
{
    if pairs.len() > 0 {
        let pre = pairs.drop_last();
        assert forall|k: int| 0 <= k < pre.len() implies pre[k].0 != key by {
            assert(pre[k] == pairs[k]);
        }
        lemma_pairs_map_absent(pre, key);
        assert(pairs[pairs.len() - 1].0 != key);
    }
}

proof fn lemma_pairs_map_update(pairs: Seq<(Seq<char>, Seq<char>)>, p: int, v: Seq<char>)
    requires
        keys_increasing(pairs),
        0 <= p < pairs.len(),
    ensures
        pairs_map(pairs.update(p, (pairs[p].0, v))) == pairs_map(pairs).insert(pairs[p].0, v),
    decreases pairs.len(),
{
    let np = pairs.update(p, (pairs[p].0, v));
    let pre = pairs.drop_last();
    assert forall|a: int, b: int| 0 <= a < b < pre.len() implies char_seq_order(#[trigger] pre[a].0, #[trigger] pre[b].0) < 0 by {
        assert(pre[a] == pairs[a] && pre[b] == pairs[b]);
    }
    if p == pairs.len() - 1 {
        assert(np.drop_last() =~= pre);
        assert(np.last() == (pairs[p].0, v));
        assert(pairs_map(pairs) == pairs_map(pre).insert(pairs[p].0, pairs[p].1));
        assert(pairs_map(np) =~= pairs_map(pairs).insert(pairs[p].0, v));
    } else {
        lemma_pairs_map_update(pre, p, v);
        assert(np.drop_last() =~= pre.update(p, (pre[p].0, v)));
        assert(np.last() == pairs.last());
        lemma_char_seq_order_props(pairs[p].0, pairs.last().0);
        assert(pairs[p].0 != pairs.last().0);
        assert(pairs_map(np) =~= pairs_map(pairs).insert(pairs[p].0, v));
    }
}

proof fn lemma_pairs_map_insert_new(pairs: Seq<(Seq<char>, Seq<char>)>, p: int, k: Seq<char>, v: Seq<char>)
    requires
        0 <= p <= pairs.len(),
        forall|i: int| 0 <= i < pairs.len() ==> pairs[i].0 != k,
    ensures
        pairs_map(pairs.insert(p, (k, v))) == pairs_map(pairs).insert(k, v),
    decreases pairs.len(),
{
    let np = pairs.insert(p, (k, v));
    if p == pairs.len() {
        assert(np.drop_last() =~= pairs);
    } else {
        let pre = pairs.drop_last();
        assert forall|i: int| 0 <= i < pre.len() implies pre[i].0 != k by {
            assert(pre[i] == pairs[i]);
        }
        lemma_pairs_map_insert_new(pre, p, k, v);
        assert(np.drop_last() =~= pre.insert(p, (k, v)));
        assert(np.last() == pairs.last());
        assert(pairs[pairs.len() - 1].0 != k);
        assert(pairs_map(np) =~= pairs_map(pairs).insert(k, v));
    }
}

/// The reader's state: the map so far and the id of the open section.
pub ghost struct ImgState {
    pub map: Map<Seq<char>, Seq<char>>,
    pub current: Option<Seq<char>>,
}

/// The reader after one more line: `## id` opens a section, `- data: "…"`
/// stores the data (without its trailing quotes) under the open id.
pub open spec fn img_step(st: ImgState, line: Seq<char>) -> ImgState {
    let t = trim(line);
    if has_prefix(t, section_prefix()) {
        ImgState { current: Some(trim(t.subrange(3, t.len() as int))), ..st }
    } else if has_prefix(t, data_prefix()) {
        match st.current {
            Some(id) => ImgState { map: st.map.insert(id, trim_end_char(t.subrange(9, t.len() as int), '"')), ..st },
            None => st,
        }
    } else {
        st
    }
}

pub open spec fn img_scan(ls: Seq<Seq<char>>) -> ImgState
    decreases ls.len(),
{
    if ls.len() == 0 {
        ImgState { map: Map::empty(), current: None }
    } else {
        img_step(img_scan(ls.drop_last()), ls.last())
    }
}

/// The image map an `images.md` text holds.
pub open spec fn images_map_spec(content: Seq<char>) -> Map<Seq<char>, Seq<char>> {
    img_scan(lines(content)).map
}

/// The lines written for the images, in id order.
pub open spec fn image_doc_lines(pairs: Seq<(Seq<char>, Seq<char>)>) -> Seq<Seq<char>> {
    seq![seq!['#', ' ', 'I', 'm', 'a', 'g', 'e', 's', ' ', 'S', 't', 'o', 'r', 'a', 'g', 'e'], Seq::empty()]
        + pairs.map_values(
        |e: (Seq<char>, Seq<char>)| seq![section_prefix() + e.0, data_prefix() + e.1 + seq!['"'], Seq::empty()],
    ).flatten()
}

/// The start of an image encoding error: `PNG Encode Hatası: `.
pub open spec fn png_error_prefix() -> Seq<char> {
    seq!['P', 'N', 'G', ' ', 'E', 'n', 'c', 'o', 'd', 'e', ' ', 'H', 'a', 't', 'a', 's', 'ı', ':', ' ']
}

/// Reads and writes the stored images.
pub struct ImageManager;

impl ImageManager {
    /// The image map an `images.md` text holds.
    pub fn parse_images_map_from_content(content: &str) -> (res: ImageMap)
        ensures
            res.wf(),
            res.view_map() == images_map_spec(content@),
    {
        let chars = chars_of(content);
        let ls = split_lines(&chars);
        let mut map = ImageMap::new();
        assert(map.view_map() =~= Map::<Seq<char>, Seq<char>>::empty());
        let mut current: Option<Vec<char>> = None;
        let section: Vec<char> = vec!['#', '#', ' '];
        let data: Vec<char> = vec!['-', ' ', 'd', 'a', 't', 'a', ':', ' ', '"'];
        assert(section@ == section_prefix());
        assert(data@ == data_prefix());
        let mut i: usize = 0;
        while i < ls.len()
            invariant
                i <= ls@.len(),
                views(ls@) == lines(content@),
                section@ == section_prefix(),
                data@ == data_prefix(),
                map.wf(),
                map.view_map() == img_scan(views(ls@).subrange(0, i as int)).map,
                (match current {
                    Some(c) => Some(c@),
                    None => None,
                }) == img_scan(views(ls@).subrange(0, i as int)).current,
            decreases ls@.len() - i,
        {
            let ghost next = views(ls@).subrange(0, i + 1);
            assert(next.drop_last() =~= views(ls@).subrange(0, i as int));
            assert(next.last() == ls@[i as int]@);
            let t = trim_exec(&ls[i]);
            if starts_with(&t, &section) {
                let rest = slice_chars(&t, 3, t.len());
                current = Some(trim_exec(&rest));
            } else if starts_with(&t, &data) {
                match &current {
                    Some(id) => {
                        let rest = slice_chars(&t, 9, t.len());
                        let mut b = rest.len();
                        assert(rest@.subrange(0, rest@.len() as int) =~= rest@);
                        while b > 0 && rest[b - 1] == '"'
                            invariant
                                b <= rest@.len(),
                                trim_end_char(rest@, '"') == trim_end_char(rest@.subrange(0, b as int), '"'),
                            decreases b,
                        {
                            assert(rest@.subrange(0, b as int).drop_last() =~= rest@.subrange(0, b - 1));
                            b = b - 1;
                        }
                        let clean = slice_chars(&rest, 0, b);
                        map.insert(string_of(id).as_str(), string_of(&clean).as_str());
                    },
                    None => {},
                }
            }
            i = i + 1;
        }
        assert(views(ls@).subrange(0, ls@.len() as int) =~= views(ls@));
        map
    }

    /// The image map stored in `images.md`: empty when the file is
    /// missing (`None`), the read error when reading failed.
    pub fn load_all_images(file: Option<Result<String, String>>) -> (res: Result<ImageMap, String>)
        ensures
            match file {
                None => res matches Ok(m) && m.wf() && m.pairs().len() == 0,
                Some(Err(e)) => res matches Err(r) && r@ == e@,
                Some(Ok(c)) => res matches Ok(m) && m.wf() && m.view_map() == images_map_spec(c@),
            },
    {
        match file {
            None => Ok(ImageMap::new()),
            Some(Err(e)) => Err(e),
            Some(Ok(content)) => Ok(Self::parse_images_map_from_content(content.as_str())),
        }
    }

    /// The `images.md` text for `map`: a heading, then each image in id
    /// order.
    pub fn render_images_map(map: &ImageMap) -> (res: String)
        ensures
            res@ == terminated(image_doc_lines(map.pairs())),
    {
        let mut ls: Vec<Vec<char>> = Vec::new();
        ls.push(vec!['#', ' ', 'I', 'm', 'a', 'g', 'e', 's', ' ', 'S', 't', 'o', 'r', 'a', 'g', 'e']);
        ls.push(Vec::new());
        let ghost f = |e: (Seq<char>, Seq<char>)| seq![section_prefix() + e.0, data_prefix() + e.1 + seq!['"'], Seq::empty()];
        let ghost ps = map.pairs();
        let ghost head = views(ls@);
        assert(ps.subrange(0, 0).map_values(f).flatten() =~= Seq::<Seq<char>>::empty());
        let mut i: usize = 0;
        while i < map.len()
            invariant
                i <= ps.len(),
                ps == map.pairs(),
                f == (|e: (Seq<char>, Seq<char>)| seq![section_prefix() + e.0, data_prefix() + e.1 + seq!['"'], Seq::empty()]),
                head == seq![seq!['#', ' ', 'I', 'm', 'a', 'g', 'e', 's', ' ', 'S', 't', 'o', 'r', 'a', 'g', 'e'], Seq::<char>::empty()],
                views(ls@) == head + ps.subrange(0, i as int).map_values(f).flatten(),
            decreases ps.len() - i,
        {
            let (id, data) = map.entry(i);
            let mut l1: Vec<char> = vec!['#', '#', ' '];
            crate::text::push_all(&mut l1, &chars_of(id.as_str()));
            let mut l2: Vec<char> = vec!['-', ' ', 'd', 'a', 't', 'a', ':', ' ', '"'];
            crate::text::push_all(&mut l2, &chars_of(data.as_str()));
            l2.push('"');
            let ghost before = views(ls@);
            ls.push(l1);
            ls.push(l2);
            ls.push(Vec::new());
            proof {
                let e = ps[i as int];
                assert(e.0 == id@ && e.1 == data@);
                assert(l1@ =~= section_prefix() + e.0);
                assert(l2@ =~= data_prefix() + e.1 + seq!['"']);
                assert(f(e) =~= seq![section_prefix() + e.0, data_prefix() + e.1 + seq!['"'], Seq::<char>::empty()]);
                assert(views(ls@) =~= before + seq![l1@, l2@, Seq::<char>::empty()]);
                assert(views(ls@) =~= before + f(e));
                let pre = ps.subrange(0, i as int).map_values(f);
                assert(ps.subrange(0, i + 1).map_values(f) =~= pre.push(f(e)));
                pre.lemma_flatten_push(f(e));
            }
            i = i + 1;
        }
        assert(ps.subrange(0, ps.len() as int) =~= ps);
        let mut out: Vec<char> = Vec::new();
        push_terminated(&mut out, &ls);
        assert(out@ =~= terminated(image_doc_lines(map.pairs())));
        string_of(&out)
    }

    /// Stores base64 PNG data for a new image under the text of its id.
    pub fn save_image(map: &mut ImageMap, image_id: u128, base64_data: &str)
        requires
            old(map).wf(),
        ensures
            final(map).wf(),
            final(map).view_map() == old(map).view_map().insert(uuid_hyphenated(image_id), base64_data@),
    {
        let key = format_uuid(image_id);
        map.insert(key.as_str(), base64_data);
    }

    /// The image bytes base64 text stands for.
    pub fn decode_image_data(base64_str: &str) -> (res: Option<Vec<u8>>)
        ensures
            match res {
                Some(b) => base64_bytes(base64_str@) == Some(b@),
                None => base64_bytes(base64_str@) == None::<Seq<u8>>,
            },
    {
        base64_decode(base64_str)
    }

    /// Base64 text of PNG bytes.
    pub fn encode_png_base64(png: &Vec<u8>) -> (res: String)
        requires
            base64_len_fits(png@.len()),
        ensures
            res@ == base64_text(png@),
            base64_bytes(res@) == Some(png@),
    {
        base64_encode(png)
    }

    /// The error text: the fixed prefix, then `detail`.
    fn png_error(detail: &[char]) -> (res: String)
        ensures
            has_prefix(res@, png_error_prefix()),
    {
        let mut msg: Vec<char> = vec!['P', 'N', 'G', ' ', 'E', 'n', 'c', 'o', 'd', 'e', ' ', 'H', 'a', 't', 'a', 's', 'ı', ':', ' '];
        assert(msg@ == png_error_prefix());
        crate::text::push_all(&mut msg, detail);
        assert(msg@.subrange(0, 19) =~= png_error_prefix());
        string_of(&msg)
    }

    /// An RGBA pixel buffer as base64 PNG text. It succeeds exactly when
    /// the buffer holds four bytes per pixel, the PNG encoder accepts it,
    /// and the PNG's base64 text fits in memory; otherwise the error text
    /// starts with `PNG Encode Hatası: `.
    pub fn encode_rgba_image_to_base64(width: u32, height: u32, rgba: Vec<u8>) -> (res: Result<String, String>)
        ensures
            match res {
                Ok(t) => png_base64_text(width, height, rgba@) == Some(t@)
                    && base64_bytes(t@) == png_encoding(width, height, rgba@),
                Err(m) => png_base64_text(width, height, rgba@) is None && has_prefix(m@, png_error_prefix()),
            },
    {
        let w: u128 = width as u128;
        let h: u128 = height as u128;
        assert(4 * (w * h) <= u128::MAX) by (nonlinear_arith)
            requires
                w <= 0xffff_ffff,
                h <= 0xffff_ffff,
        {
            assert(w * h <= 0xffff_ffff * h);
            assert(0xffff_ffff * h <= 0xffff_ffff * 0xffff_ffff);
        }
        let expected: u128 = 4 * (w * h);
        assert(expected == 4 * width * height) by (nonlinear_arith)
            requires
                expected == 4 * (w * h),
                w == width,
                h == height;
        if (rgba.len() as u128) != expected {
            return Err(Self::png_error(&vec!['b', 'u', 'f', 'f', 'e', 'r', ' ', 's', 'i', 'z', 'e']));
        }
        match png_encode_rgba(width, height, rgba) {
            Ok(png) => {
                let n = png.len();
                let whole = n / 3;
                let extra: usize = if n % 3 > 0 { 4 } else { 0 };
                if whole <= (usize::MAX - extra) / 4 {
                    Ok(Self::encode_png_base64(&png))
                } else {
                    Err(Self::png_error(&vec!['t', 'o', 'o', ' ', 'l', 'a', 'r', 'g', 'e']))
                }
            },
            Err(e) => Err(Self::png_error(&chars_of(e.as_str()))),
        }
    }
}

} // verus!
