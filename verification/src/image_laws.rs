//! What the image store gives back of what it wrote.
use vstd::prelude::*;
use crate::file_selector::{char_seq_order, lemma_char_seq_order_props};
use crate::ids::uuid_hyphenated;
use crate::images::{
    data_prefix, image_doc_lines, images_map_spec, img_scan, img_step, keys_increasing, pairs_map, section_prefix,
    ImageMap, ImgState,
};
use crate::md_laws::{lemma_uuid_chars, uuid_char};
use crate::md_laws::{lemma_lines_terminated, lemma_trim_noop, no_breaks};
use crate::records::terminated;
use crate::text::{has_prefix, is_ws, lines, trim, trim_end_char};

verus! {

/// An image id that its section heading carries through reading: not
/// blank at either end and on one line.
pub open spec fn storable_id(id: Seq<char>) -> bool {
    id.len() > 0 && !is_ws(id[0]) && !is_ws(id.last()) && no_breaks(id)
}

/// Image data that its data line carries through reading: on one line and
/// not ending in a quote.
pub open spec fn storable_data(data: Seq<char>) -> bool {
    no_breaks(data) && (data.len() == 0 || data.last() != '"')
}

/// An image whose id and data read back as written.
pub open spec fn storable_entry(e: (Seq<char>, Seq<char>)) -> bool {
    storable_id(e.0) && storable_data(e.1)
}

/// The three lines written for one image.
pub open spec fn image_block(e: (Seq<char>, Seq<char>)) -> Seq<Seq<char>> {
    seq![section_prefix() + e.0, data_prefix() + e.1 + seq!['"'], Seq::empty()]
}

/// The heading of the store and the blank line after it.
pub open spec fn image_header() -> Seq<Seq<char>> {
    seq![seq!['#', ' ', 'I', 'm', 'a', 'g', 'e', 's', ' ', 'S', 't', 'o', 'r', 'a', 'g', 'e'], Seq::empty()]
}

proof fn lemma_doc_lines_shape(pairs: Seq<(Seq<char>, Seq<char>)>)
    ensures
        image_doc_lines(pairs) == image_header() + pairs.map_values(|e: (Seq<char>, Seq<char>)| image_block(e)).flatten(),
{
    let f = |e: (Seq<char>, Seq<char>)| seq![section_prefix() + e.0, data_prefix() + e.1 + seq!['"'], Seq::empty()];
    let g = |e: (Seq<char>, Seq<char>)| image_block(e);
    assert(pairs.map_values(f) =~= pairs.map_values(g));
}

proof fn lemma_header_lines_scan()
    ensures
        img_scan(image_header()) == (ImgState { map: Map::empty(), current: None }),
{
    let h = image_header();
    let l0 = h[0];
    assert(!is_ws(l0[0]) && !is_ws(l0.last()));
    lemma_trim_noop(l0);
    assert(l0[1] != section_prefix()[1]);
    assert(!has_prefix(l0, section_prefix())) by {
        if has_prefix(l0, section_prefix()) {
            assert(l0.subrange(0, 3)[1] == section_prefix()[1]);
        }
    }
    assert(!has_prefix(l0, data_prefix())) by {
        if has_prefix(l0, data_prefix()) {
            assert(l0.subrange(0, 9)[0] == data_prefix()[0]);
        }
    }
    assert(h.drop_last() =~= seq![l0]);
    assert(seq![l0].drop_last() =~= Seq::<Seq<char>>::empty());
    let e: Seq<char> = Seq::empty();
    assert(trim(e) =~= e) by {
        assert(crate::text::trim_start(e) == e);
        assert(crate::text::trim_end(e) == e);
    }
    let st0 = img_scan(Seq::<Seq<char>>::empty());
    assert(img_scan(seq![l0]) == img_step(st0, l0));
    assert(img_step(st0, l0) == st0);
    assert(h.last() == e);
    assert(img_scan(h) == img_step(img_scan(seq![l0]), e));
    assert(img_step(st0, e) == st0);
}

proof fn lemma_block_scan(st: ImgState, e: (Seq<char>, Seq<char>))
    requires
        storable_id(e.0),
        storable_data(e.1),
    ensures
        img_step(img_step(img_step(st, image_block(e)[0]), image_block(e)[1]), image_block(e)[2])
            == (ImgState { map: st.map.insert(e.0, e.1), current: Some(e.0) }),
{
    let b = image_block(e);
    let l0 = b[0];
    let l1 = b[1];
    // The heading line.
    assert(l0 =~= section_prefix() + e.0);
    assert(!is_ws(l0[0]));
    assert(l0.last() == e.0.last());
    lemma_trim_noop(l0);
    assert(has_prefix(l0, section_prefix())) by {
        assert(l0.subrange(0, 3) =~= section_prefix());
    }
    assert(l0.subrange(3, l0.len() as int) =~= e.0);
    lemma_trim_noop(e.0);
    let st1 = img_step(st, l0);
    assert(st1 == ImgState { current: Some(e.0), ..st });
    // The data line.
    assert(l1 =~= data_prefix() + e.1 + seq!['"']);
    assert(!is_ws(l1[0]));
    assert(l1.last() == '"');
    lemma_trim_noop(l1);
    assert(!has_prefix(l1, section_prefix())) by {
        if has_prefix(l1, section_prefix()) {
            assert(l1.subrange(0, 3)[0] == section_prefix()[0]);
        }
    }
    assert(has_prefix(l1, data_prefix())) by {
        assert(l1.subrange(0, 9) =~= data_prefix());
    }
    let rest = l1.subrange(9, l1.len() as int);
    assert(rest =~= e.1.push('"'));
    assert(rest.drop_last() =~= e.1);
    assert(trim_end_char(rest, '"') == trim_end_char(e.1, '"'));
    assert(trim_end_char(e.1, '"') == e.1);
    let st2 = img_step(st1, l1);
    assert(st2 == ImgState { map: st.map.insert(e.0, e.1), current: Some(e.0) });
    // The blank line.
    let blank: Seq<char> = b[2];
    assert(blank.len() == 0);
    assert(trim(blank) =~= blank) by {
        assert(crate::text::trim_start(blank) == blank);
        assert(crate::text::trim_end(blank) == blank);
    }
}

proof fn lemma_blocks_scan(pairs: Seq<(Seq<char>, Seq<char>)>)
    requires
        forall|k: int| 0 <= k < pairs.len() ==> storable_id(#[trigger] pairs[k].0) && storable_data(pairs[k].1),
    ensures
        img_scan(image_header() + pairs.map_values(|e: (Seq<char>, Seq<char>)| image_block(e)).flatten()).map
            == pairs_map(pairs),
    decreases pairs.len(),
{
    let g = |e: (Seq<char>, Seq<char>)| image_block(e);
    if pairs.len() == 0 {
        assert(pairs.map_values(g) =~= Seq::<Seq<Seq<char>>>::empty());
        assert(image_header() + Seq::<Seq<Seq<char>>>::empty().flatten() =~= image_header());
        lemma_header_lines_scan();
    } else {
        let pre = pairs.drop_last();
        let e = pairs.last();
        assert forall|k: int| 0 <= k < pre.len() implies storable_id(#[trigger] pre[k].0) && storable_data(pre[k].1) by {
            assert(pre[k] == pairs[k]);
        }
        lemma_blocks_scan(pre);
        let m = pairs.map_values(g);
        assert(m =~= pre.map_values(g).push(image_block(e)));
        pre.map_values(g).lemma_flatten_push(image_block(e));
        let base = image_header() + pre.map_values(g).flatten();
        let b = image_block(e);
        let all = image_header() + m.flatten();
        assert(all =~= base + b);
        assert(all.drop_last() =~= base.push(b[0]).push(b[1]));
        assert(all.drop_last().drop_last() =~= base.push(b[0]));
        assert(all.drop_last().drop_last().drop_last() =~= base);
        assert(all.last() == b[2]);
        assert(all.drop_last().last() == b[1]);
        assert(all.drop_last().drop_last().last() == b[0]);
        lemma_block_scan(img_scan(base), e);
        assert(img_scan(base.push(b[0])) == img_step(img_scan(base), b[0]));
        assert(img_scan(base.push(b[0]).push(b[1])) == img_step(img_scan(base.push(b[0])), b[1]));
        assert(img_scan(all) == img_step(img_scan(all.drop_last()), b[2]));
        assert(pairs_map(pairs) == pairs_map(pre).insert(e.0, e.1));
    }
}

/// Reading back a written image store gives the stored map: for every list
/// of images whose ids and data are storable (`storable_entry`), the map read from the text `render_images_map`
/// writes for them is the map of the list.
pub proof fn lemma_images_round_trip(pairs: Seq<(Seq<char>, Seq<char>)>)
    requires
        forall|k: int| 0 <= k < pairs.len() ==> #[trigger] storable_entry(pairs[k]),
    ensures
        images_map_spec(terminated(image_doc_lines(pairs))) == pairs_map(pairs),
{
    assert forall|j: int| 0 <= j < pairs.len() implies storable_id(#[trigger] pairs[j].0) && storable_data(pairs[j].1) by {
        assert(storable_entry(pairs[j]));
    }
    lemma_doc_lines_shape(pairs);
    let ls = image_doc_lines(pairs);
    assert forall|k: int| 0 <= k < ls.len() implies no_breaks(#[trigger] ls[k]) by {
        lemma_doc_lines_no_breaks(pairs, k);
    }
    lemma_lines_terminated(ls);
    lemma_blocks_scan(pairs);
}

proof fn lemma_doc_lines_no_breaks(pairs: Seq<(Seq<char>, Seq<char>)>, k: int)
    requires
        forall|j: int| 0 <= j < pairs.len() ==> storable_id(#[trigger] pairs[j].0) && storable_data(pairs[j].1),
        0 <= k < image_doc_lines(pairs).len(),
    ensures
        no_breaks(image_doc_lines(pairs)[k]),
    decreases pairs.len(),
{
    lemma_doc_lines_shape(pairs);
    let g = |e: (Seq<char>, Seq<char>)| image_block(e);
    if pairs.len() == 0 {
        assert(pairs.map_values(g) =~= Seq::<Seq<Seq<char>>>::empty());
        assert(image_doc_lines(pairs) =~= image_header());
    } else {
        let pre = pairs.drop_last();
        let e = pairs.last();
        assert forall|j: int| 0 <= j < pre.len() implies storable_id(#[trigger] pre[j].0) && storable_data(pre[j].1) by {
            assert(pre[j] == pairs[j]);
        }
        lemma_doc_lines_shape(pre);
        let m = pairs.map_values(g);
        assert(m =~= pre.map_values(g).push(image_block(e)));
        pre.map_values(g).lemma_flatten_push(image_block(e));
        let b = image_block(e);
        assert(image_doc_lines(pairs) =~= image_doc_lines(pre) + b);
        if k < image_doc_lines(pre).len() {
            lemma_doc_lines_no_breaks(pre, k);
        } else {
            let j = k - image_doc_lines(pre).len();
            assert(image_doc_lines(pairs)[k] == b[j]);
            assert(storable_id(e.0) && storable_data(e.1));
            if j == 0 {
                assert(no_breaks(b[0])) by {
                    assert forall|i: int| 0 <= i < b[0].len() implies b[0][i] != '\n' && b[0][i] != '\r' by {
                        if i >= 3 {
                            assert(b[0][i] == e.0[i - 3]);
                        }
                    }
                }
            } else if j == 1 {
                assert(no_breaks(b[1])) by {
                    assert forall|i: int| 0 <= i < b[1].len() implies b[1][i] != '\n' && b[1][i] != '\r' by {
                        if 9 <= i < 9 + e.1.len() {
                            assert(b[1][i] == e.1[i - 9]);
                        }
                    }
                }
            }
        }
    }
}

/// A map whose every id and data reads back as written.
pub open spec fn storable_map(m: Map<Seq<char>, Seq<char>>) -> bool {
    forall|k: Seq<char>| #[trigger] m.dom().contains(k) ==> storable_id(k) && storable_data(m[k])
}

/// Every entry of a list with increasing ids is in its map.
proof fn lemma_pairs_in_map(pairs: Seq<(Seq<char>, Seq<char>)>, k: int)
    requires
        keys_increasing(pairs),
        0 <= k < pairs.len(),
    ensures
        pairs_map(pairs).dom().contains(pairs[k].0),
        pairs_map(pairs)[pairs[k].0] == pairs[k].1,
    decreases pairs.len(),
{
    if k < pairs.len() - 1 {
        let pre = pairs.drop_last();
        assert forall|i: int, j: int| 0 <= i < j < pre.len() implies char_seq_order(#[trigger] pre[i].0, #[trigger] pre[j].0) < 0 by {
            assert(pre[i] == pairs[i] && pre[j] == pairs[j]);
        }
        lemma_pairs_in_map(pre, k);
        assert(pre[k] == pairs[k]);
        let last = pairs.len() - 1;
        assert(char_seq_order(pairs[k].0, pairs[last].0) < 0);
        lemma_char_seq_order_props(pairs[k].0, pairs[last].0);
        assert(pairs[k].0 != pairs.last().0);
    }
}

/// The text of a UUID is a storable image id.
pub proof fn lemma_uuid_storable(id: u128)
    ensures
        storable_id(uuid_hyphenated(id)),
{
    let u = uuid_hyphenated(id);
    lemma_uuid_chars(id);
    assert(uuid_char(u[0]));
    assert(uuid_char(u[u.len() - 1]));
    assert forall|i: int| 0 <= i < u.len() implies u[i] != '\n' && u[i] != '\r' by {
        assert(uuid_char(u[i]));
    }
}

/// An image map whose ids and data are all storable reads back, after it
/// is written, as itself.
pub proof fn lemma_image_map_reads_back(m: ImageMap)
    requires
        m.wf(),
        storable_map(m.view_map()),
    ensures
        images_map_spec(terminated(image_doc_lines(m.pairs()))) == m.view_map(),
{
    let pairs = m.pairs();
    assert forall|k: int| 0 <= k < pairs.len() implies #[trigger] storable_entry(pairs[k]) by {
        lemma_pairs_in_map(pairs, k);
        assert(m.view_map().dom().contains(pairs[k].0));
    }
    lemma_images_round_trip(pairs);
}

/// Saving an image and loading the store back: when the stored images and
/// the new data are storable, the store written after `save_image` (whose
/// map is `after`) reads back as the old map with the image's id text
/// mapped to the new data; every other image keeps its data.
pub proof fn lemma_save_then_load(before: ImageMap, after: ImageMap, image_id: u128, data: Seq<char>)
    requires
        before.wf(),
        after.wf(),
        storable_map(before.view_map()),
        storable_data(data),
        after.view_map() == before.view_map().insert(uuid_hyphenated(image_id), data),
    ensures
        images_map_spec(terminated(image_doc_lines(after.pairs()))) == before.view_map().insert(uuid_hyphenated(image_id), data),
{
    lemma_uuid_storable(image_id);
    assert(storable_map(after.view_map()));
    lemma_image_map_reads_back(after);
}

} // verus!
