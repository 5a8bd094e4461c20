//! What lies where in a file of the fifth version.

use vstd::prelude::*;

use crate::bytes::{le32, zeros};
use crate::container::{
    header, job_header, job_timing, layer_def, owned_text, stage_timing, utf8, ByteOrder,
};
use crate::container_v5::{
    def_entry, def_table, goo_v5_container, in_a_row, joined_data, lemma_defs_in_a_row,
    lemma_in_a_row, lemma_joined_len, lemma_v5_parts, md5_of, page_entry, page_size, page_table,
    stated_count, total_data, v5_body, v5_defs, v5_end, v5_layer_def, SECTION_START, TABLE_END,
};
use crate::contents::{
    lemma_names_its_origin, lemma_states_settings, names_its_origin, states_settings,
};
use crate::json::json_parsed;
use crate::layers::LayerView;
use crate::layout::{
    defines_layer, law_header_names_its_origin, lemma_defines, lemma_field32, number32,
};
use crate::preview::law_preview_sizes;
use crate::settings::{amount, law_times_of_a_job_are_those_told, told, told_count, whole};
use crate::single::{layer_position, Single};
use crate::text::hex_bytes;
use crate::types::{GooTimingModel, SliceJobV3, GOO_V5_FILE_VERSION};

verus! {

/// Where the data of block `i` lies in a file of the fifth version: behind the definitions
/// of all layers and the data before it.
pub open spec fn data_at(layers: Seq<LayerView>, i: nat) -> int
    decreases i,
{
    if i == 0 {
        195507 + 90 * layers.len() as int
    } else {
        data_at(layers, (i - 1) as nat) + layers[i - 1].encoded.len()
    }
}

proof fn lemma_data_at(layers: Seq<LayerView>, i: nat)
    requires
        i <= layers.len(),
    ensures
        data_at(layers, i) == 195507 + 90 * layers.len() + joined_data(layers.take(i as int)).len(),
    decreases i,
{
    if i > 0 {
        lemma_data_at(layers, (i - 1) as nat);
        assert(layers.take(i as int).drop_last() =~= layers.take(i - 1));
    } else {
        assert(layers.take(0) =~= seq![]);
    }
}

proof fn lemma_joined_prefix(layers: Seq<LayerView>, i: nat)
    requires
        i <= layers.len(),
    ensures
        joined_data(layers.take(i as int)).len() <= joined_data(layers).len(),
        joined_data(layers).take(joined_data(layers.take(i as int)).len() as int) == joined_data(
            layers.take(i as int),
        ),
    decreases layers.len(),
{
    let part = joined_data(layers.take(i as int));
    if i == layers.len() {
        assert(layers.take(i as int) =~= layers);
        assert(joined_data(layers).take(part.len() as int) =~= part);
    } else {
        let shorter = layers.drop_last();
        lemma_joined_prefix(shorter, i);
        assert(shorter.take(i as int) =~= layers.take(i as int));
        assert(joined_data(layers).take(part.len() as int) =~= joined_data(shorter).take(
            part.len() as int,
        ));
    }
}

/// The parts of eight put together.
proof fn lemma_eight_parts(
    bytes: Seq<u8>,
    a: Seq<u8>,
    b: Seq<u8>,
    c: Seq<u8>,
    d: Seq<u8>,
    e: Seq<u8>,
    f: Seq<u8>,
    g: Seq<u8>,
    h: Seq<u8>,
    rest: Seq<u8>,
)
    requires
        bytes == a + b + c + d + e + f + g + h + rest,
    ensures
        ({
            let b1 = a.len() as int;
            let c1 = b1 + b.len();
            let d1 = c1 + c.len();
            let e1 = d1 + d.len();
            let f1 = e1 + e.len();
            let g1 = f1 + f.len();
            let h1 = g1 + g.len();
            let end = h1 + h.len();
            &&& bytes.len() == end + rest.len()
            &&& bytes.subrange(0, b1) == a
            &&& bytes.subrange(b1, c1) == b
            &&& bytes.subrange(c1, d1) == c
            &&& bytes.subrange(d1, e1) == d
            &&& bytes.subrange(e1, f1) == e
            &&& bytes.subrange(f1, g1) == f
            &&& bytes.subrange(g1, h1) == g
            &&& bytes.subrange(h1, end) == h
        }),
{
    let b1 = a.len() as int;
    let c1 = b1 + b.len();
    let d1 = c1 + c.len();
    let e1 = d1 + d.len();
    let f1 = e1 + e.len();
    let g1 = f1 + f.len();
    let h1 = g1 + g.len();
    let end = h1 + h.len();
    assert(bytes.subrange(0, b1) =~= a);
    assert(bytes.subrange(b1, c1) =~= b);
    assert(bytes.subrange(c1, d1) =~= c);
    assert(bytes.subrange(d1, e1) =~= d);
    assert(bytes.subrange(e1, f1) =~= e);
    assert(bytes.subrange(f1, g1) =~= f);
    assert(bytes.subrange(g1, h1) =~= g);
    assert(bytes.subrange(h1, end) =~= h);
}

/// The parts of a file of the fifth version lie behind each other.
spec fn v5_places(
    bytes: Seq<u8>,
    h: Seq<u8>,
    t: GooTimingModel,
    layer_height: Single,
    layers: Seq<LayerView>,
) -> bool {
    let n = layers.len();
    let data = 195507 + 90 * n as int;
    let end = data + total_data(layers);
    &&& bytes.len() >= end + 30
    &&& bytes.subrange(0, 195477) == h
    &&& bytes.subrange(195477, 195493) == SECTION_START@
    &&& bytes.subrange(195493, 195493 + 8 * n as int) == def_table(n)
    &&& bytes.subrange(195493 + 8 * n as int, 195493 + 24 * n as int) == page_table(
        n,
        page_size(total_data(layers), n),
    )
    &&& bytes.subrange(195493 + 24 * n as int, 195507 + 24 * n as int) == TABLE_END@
    &&& bytes.subrange(195507 + 24 * n as int, data) == v5_defs(n, t, layer_height)
    &&& bytes.subrange(data, end) == joined_data(layers)
    &&& bytes.subrange(end, end + 30) == v5_end()
}

proof fn lemma_v5_places_of(
    bytes: Seq<u8>,
    h: Seq<u8>,
    t: GooTimingModel,
    layer_height: Single,
    layers: Seq<LayerView>,
    rest: Seq<u8>,
)
    requires
        h.len() == 195477,
        bytes == h + SECTION_START@ + def_table(layers.len()) + page_table(
            layers.len(),
            page_size(total_data(layers), layers.len()),
        ) + TABLE_END@ + v5_defs(layers.len(), t, layer_height) + joined_data(layers) + v5_end()
            + rest,
        def_table(layers.len()).len() == 8 * layers.len(),
        page_table(layers.len(), page_size(total_data(layers), layers.len())).len() == 16
            * layers.len(),
        v5_defs(layers.len(), t, layer_height).len() == 66 * layers.len(),
        joined_data(layers).len() == total_data(layers),
        v5_end().len() == 30,
    ensures
        v5_places(bytes, h, t, layer_height, layers),
{
    let n = layers.len();
    lemma_eight_parts(
        bytes,
        h,
        SECTION_START@,
        def_table(n),
        page_table(n, page_size(total_data(layers), n)),
        TABLE_END@,
        v5_defs(n, t, layer_height),
        joined_data(layers),
        v5_end(),
        rest,
    );
}

proof fn lemma_v5_places(job: SliceJobV3, layers: Seq<LayerView>, created: Seq<char>)
    requires
        layers.len() < 0x1_0000_0000,
    ensures
        v5_places(
            goo_v5_container(job, layers, created),
            header(
                ByteOrder::Little,
                job_header(job, GOO_V5_FILE_VERSION@, layers.len(), created),
            ),
            job_timing(job),
            job.layer_height_mm,
            layers,
        ),
{
    let bytes = goo_v5_container(job, layers, created);
    let h = header(
        ByteOrder::Little,
        job_header(job, GOO_V5_FILE_VERSION@, layers.len(), created),
    );
    lemma_v5_parts(job, layers, created);
    assert(stated_count(layers) == layers.len());
    let body = v5_body(job, layers, created);
    lemma_v5_places_of(
        bytes,
        h,
        job_timing(job),
        job.layer_height_mm,
        layers,
        utf8(hex_bytes(md5_of(body))),
    );
}

/// The bytes between the data and the digest.
proof fn lemma_end_bytes()
    ensures
        v5_end() == Seq::new(20, |k: int| 0u8) + seq![0x33u8, 0x33, 0x93, 0x3f, 0, 0, 0, 0, 13, 10],
{
    let tail = seq![0x33u8, 0x33, 0x93, 0x3f, 0, 0, 0, 0, 13, 10];
    assert(zeros(20) =~= Seq::new(20, |k: int| 0u8));
    assert(le32(0x3f933333) =~= seq![0x33u8, 0x33, 0x93, 0x3f]);
    assert(le32(0) =~= seq![0u8, 0, 0, 0]);
    assert(v5_end() =~= Seq::new(20, |k: int| 0u8) + tail);
}

/// The version and the magic bytes at the start.
proof fn lemma_v5_start(bytes: Seq<u8>, job: SliceJobV3, count: nat, created: Seq<char>)
    requires
        bytes.len() >= 195477,
        bytes.subrange(0, 195477) == header(
            ByteOrder::Little,
            job_header(job, GOO_V5_FILE_VERSION@, count, created),
        ),
    ensures
        bytes.subrange(0, 12) == seq![
            0x56u8, 0x35, 0x2E, 0x31, 0x07, 0, 0, 0, 0x44, 0x4C, 0x50, 0,
        ],
{
    law_preview_sizes(owned_text(job.export_thumbnail_png_base64));
    law_header_names_its_origin(
        ByteOrder::Little,
        job_header(job, GOO_V5_FILE_VERSION@, count, created),
    );
    assert(bytes.subrange(0, 4) =~= bytes.subrange(0, 195477).subrange(0, 4));
    assert(bytes.subrange(4, 12) =~= bytes.subrange(0, 195477).subrange(4, 12));
    assert(bytes.subrange(0, 12) =~= bytes.subrange(0, 4) + bytes.subrange(4, 12));
    assert(bytes.subrange(0, 12) =~= seq![
        0x56u8, 0x35, 0x2E, 0x31, 0x07, 0, 0, 0, 0x44, 0x4C, 0x50, 0,
    ]);
}

/// A file of the fifth version starts with its version and its header, which states the
/// settings of the job with the least significant bytes first. Fixed bytes open and close
/// the tables, and others lie between the data and the digest.
#[verifier::rlimit(40)]
pub proof fn law_v5_file_states_its_settings(
    job: SliceJobV3,
    layers: Seq<LayerView>,
    created: Seq<char>,
)
    requires
        layers.len() < 0x1_0000_0000,
    ensures
        ({
            let bytes = goo_v5_container(job, layers, created);
            let doc = json_parsed(job.metadata_json@);
            let n = layers.len() as int;
            let o = ByteOrder::Little;
            let end = data_at(layers, layers.len());
            &&& bytes.len() >= end + 30
            &&& states_settings(o, bytes, job, layers.len())
            &&& bytes.subrange(0, 12) == seq![
                0x56u8, 0x35, 0x2E, 0x31, 0x07, 0, 0, 0, 0x44, 0x4C, 0x50, 0,
            ]
            &&& number32(o, bytes, 195336) == amount(told(doc, "normalExposureSec"@))
            &&& number32(o, bytes, 195369) == amount(told(doc, "bottomExposureSec"@))
            &&& number32(o, bytes, 195373) == whole(told_count(doc, "bottomLayerCount"@))
            &&& bytes.subrange(195477, 195493) == seq![
                0x02u8, 0xa4, 0xfb, 0x02, 0x00, 0x25, 0x08, 0x03, 0x00, 0x26, 0x21, 0x03, 0x00,
                0x78, 0x03, 0xa1,
            ]
            &&& bytes.subrange(195493 + 24 * n, 195507 + 24 * n) == seq![
                0x00u8, 0xa3, 0x01, 0x00, 0x00, 0x00, 0x33, 0x70, 0x45, 0x00, 0x8e, 0x00, 0x00,
                0x00,
            ]
            &&& bytes.subrange(end, end + 30) == Seq::new(20, |k: int| 0u8) + seq![
                0x33u8, 0x33, 0x93, 0x3f, 0, 0, 0, 0, 13, 10,
            ]
        }),
{
    let bytes = goo_v5_container(job, layers, created);
    lemma_v5_places(job, layers, created);
    lemma_data_at(layers, layers.len());
    lemma_joined_len(layers);
    assert(layers.take(layers.len() as int) =~= layers);
    lemma_states_settings(
        ByteOrder::Little,
        bytes,
        job,
        GOO_V5_FILE_VERSION@,
        layers.len(),
        created,
    );
    lemma_v5_start(bytes, job, layers.len(), created);
    law_times_of_a_job_are_those_told(job);
    lemma_end_bytes();
    assert(SECTION_START@ =~= seq![
        0x02u8, 0xa4, 0xfb, 0x02, 0x00, 0x25, 0x08, 0x03, 0x00, 0x26, 0x21, 0x03, 0x00, 0x78, 0x03,
        0xa1,
    ]);
    assert(TABLE_END@ =~= seq![
        0x00u8, 0xa3, 0x01, 0x00, 0x00, 0x00, 0x33, 0x70, 0x45, 0x00, 0x8e, 0x00, 0x00, 0x00,
    ]);
}

/// One of several pieces of 66 bytes.
proof fn lemma_piece(bytes: Seq<u8>, from: int, pieces: Seq<u8>, n: nat, i: nat)
    requires
        i < n,
        0 <= from,
        from + 66 * n <= bytes.len(),
        bytes.subrange(from, from + 66 * n) == pieces,
    ensures
        bytes.subrange(from + 66 * i, from + 66 * i + 66) == pieces.subrange(
            (66 * i) as int,
            (66 * i + 66) as int,
        ),
{
    assert(bytes.subrange(from + 66 * i, from + 66 * i + 66) =~= pieces.subrange(
        (66 * i) as int,
        (66 * i + 66) as int,
    ));
}

/// The definition of a layer among those of all layers.
proof fn lemma_v5_def(
    bytes: Seq<u8>,
    from: int,
    t: GooTimingModel,
    layer_height: Single,
    n: nat,
    i: nat,
)
    requires
        i < n < 0x1_0000_0000,
        0 <= from,
        from + 66 * n <= bytes.len(),
        bytes.subrange(from, from + 66 * n) == v5_defs(n, t, layer_height),
    ensures
        defines_layer(
            ByteOrder::Little,
            bytes,
            from + 66 * i,
            layer_position(i, layer_height).bits,
            i < t.bottom_layer_count,
            t,
        ),
{
    let z = layer_position(i, layer_height);
    let bottom = i < t.bottom_layer_count;
    assert(v5_layer_def(i, t, layer_height) == layer_def(
        ByteOrder::Little,
        z,
        stage_timing(t, bottom),
    ));
    lemma_defs_in_a_row(n, t, layer_height);
    lemma_piece(bytes, from, v5_defs(n, t, layer_height), n, i);
    lemma_defines(ByteOrder::Little, bytes, from + 66 * i, z, bottom, t);
}

/// An entry of a table: two numbers.
proof fn lemma_entry(
    bytes: Seq<u8>,
    from: int,
    item: spec_fn(nat) -> Seq<u8>,
    n: nat,
    i: nat,
    a: u32,
    b: u32,
)
    requires
        i < n,
        0 <= from,
        from + 8 * n <= bytes.len(),
        forall|k: nat| k < n ==> (#[trigger] item(k)).len() == 8,
        bytes.subrange(from, from + 8 * n) == in_a_row(n, item),
        item(i) == le32(a) + le32(b),
    ensures
        number32(ByteOrder::Little, bytes, from + 8 * i) == a,
        number32(ByteOrder::Little, bytes, from + 8 * i + 4) == b,
{
    let table = in_a_row(n, item);
    lemma_in_a_row(n, item, 8);
    assert(i * 8 == 8 * i);
    let entry = table.subrange((8 * i) as int, (8 * i + 8) as int);
    assert(entry == item(i));
    let at = from + 8 * i;
    assert(bytes.subrange(at, at + 8) =~= entry);
    assert(bytes.subrange(at, at + 4) =~= entry.take(4));
    assert(entry.take(4) =~= le32(a));
    lemma_field32(ByteOrder::Little, bytes, at, a);
    assert(bytes.subrange(at + 4, at + 8) =~= entry.skip(4));
    assert(entry.skip(4) =~= le32(b));
    lemma_field32(ByteOrder::Little, bytes, at + 4, b);
}

/// The data of a block among those of all blocks.
proof fn lemma_block(bytes: Seq<u8>, layers: Seq<LayerView>, i: nat)
    requires
        i < layers.len(),
        195507 + 90 * layers.len() + total_data(layers) <= bytes.len(),
        bytes.subrange(
            195507 + 90 * layers.len() as int,
            195507 + 90 * layers.len() + total_data(layers) as int,
        ) == joined_data(layers),
    ensures
        ({
            let data = data_at(layers, i);
            bytes.subrange(data, data + layers[i as int].encoded.len()) == layers[i as int].encoded
        }),
{
    let joined = joined_data(layers);
    let before = joined_data(layers.take(i as int));
    let upto = joined_data(layers.take(i + 1int));
    let data = data_at(layers, i);
    let len = layers[i as int].encoded.len();
    lemma_data_at(layers, i);
    lemma_joined_prefix(layers, i + 1);
    lemma_joined_len(layers);
    assert(layers.take(i + 1int).drop_last() =~= layers.take(i as int));
    assert(upto == before + layers[i as int].encoded);
    assert(joined.subrange(before.len() as int, upto.len() as int) =~= joined.take(
        upto.len() as int,
    ).skip(before.len() as int));
    assert(upto.skip(before.len() as int) =~= layers[i as int].encoded);
    assert(bytes.subrange(data, data + len) =~= joined.subrange(
        before.len() as int,
        upto.len() as int,
    ));
}

#[verifier::rlimit(40)]
proof fn lemma_v5_layer(
    bytes: Seq<u8>,
    h: Seq<u8>,
    job: SliceJobV3,
    layers: Seq<LayerView>,
    i: nat,
)
    requires
        v5_places(bytes, h, job_timing(job), job.layer_height_mm, layers),
        layers.len() < 0x1_0000_0000,
        i < layers.len(),
    ensures
        ({
            let doc = json_parsed(job.metadata_json@);
            let n = layers.len() as int;
            let o = ByteOrder::Little;
            let at = 195507 + 24 * n + 66 * i;
            let bottom = i < whole(told_count(doc, "bottomLayerCount"@));
            let data = data_at(layers, i);
            &&& defines_layer(
                o,
                bytes,
                at,
                layer_position(i, job.layer_height_mm).bits,
                bottom,
                job_timing(job),
            )
            &&& number32(o, bytes, at + 10) == amount(
                told(
                    doc,
                    if bottom {
                        "bottomExposureSec"@
                    } else {
                        "normalExposureSec"@
                    },
                ),
            )
            &&& number32(o, bytes, 195493int + 8 * i) == at % 0x1_0000_0000
            &&& number32(o, bytes, 195497int + 8 * i) == 66
            &&& bytes.subrange(data, data + layers[i as int].encoded.len())
                == layers[i as int].encoded
        }),
{
    let n = layers.len();
    let at = 195507 + 24 * n + 66 * i;
    law_times_of_a_job_are_those_told(job);
    lemma_v5_def(bytes, 195507 + 24 * n as int, job_timing(job), job.layer_height_mm, n, i);
    lemma_entry(
        bytes,
        195493,
        |k: nat| def_entry(n, k),
        n,
        i,
        (at % 0x1_0000_0000) as u32,
        66,
    );
    lemma_block(bytes, layers, i);
}

/// A file of the fifth version defines each layer: at its number times the layer height, timed
/// as a bottom layer up to the number of those that the metadata give. The first table tells
/// where the definition lies, and that it takes 66 bytes. The data of the block lies behind
/// that of the blocks before it.
#[verifier::rlimit(40)]
pub proof fn law_v5_file_holds_every_layer(
    job: SliceJobV3,
    layers: Seq<LayerView>,
    created: Seq<char>,
    i: nat,
)
    requires
        layers.len() < 0x1_0000_0000,
        i < layers.len(),
    ensures
        ({
            let bytes = goo_v5_container(job, layers, created);
            let doc = json_parsed(job.metadata_json@);
            let n = layers.len() as int;
            let o = ByteOrder::Little;
            let at = 195507 + 24 * n + 66 * i;
            let bottom = i < whole(told_count(doc, "bottomLayerCount"@));
            let data = data_at(layers, i);
            &&& defines_layer(
                o,
                bytes,
                at,
                layer_position(i, job.layer_height_mm).bits,
                bottom,
                job_timing(job),
            )
            &&& number32(o, bytes, at + 10) == amount(
                told(
                    doc,
                    if bottom {
                        "bottomExposureSec"@
                    } else {
                        "normalExposureSec"@
                    },
                ),
            )
            &&& number32(o, bytes, 195493int + 8 * i) == at % 0x1_0000_0000
            &&& number32(o, bytes, 195497int + 8 * i) == 66
            &&& bytes.subrange(data, data + layers[i as int].encoded.len())
                == layers[i as int].encoded
        }),
{
    lemma_v5_places(job, layers, created);
    lemma_v5_layer(
        goo_v5_container(job, layers, created),
        header(
            ByteOrder::Little,
            job_header(job, GOO_V5_FILE_VERSION@, layers.len(), created),
        ),
        job,
        layers,
        i,
    );
}

proof fn lemma_v5_page(
    bytes: Seq<u8>,
    h: Seq<u8>,
    job: SliceJobV3,
    layers: Seq<LayerView>,
    k: nat,
)
    requires
        v5_places(bytes, h, job_timing(job), job.layer_height_mm, layers),
        layers.len() < 0x1_0000_0000,
        k < 2 * layers.len(),
    ensures
        ({
            let n = layers.len() as int;
            let o = ByteOrder::Little;
            let size = (data_at(layers, layers.len()) - data_at(layers, 0)) * 105 / 100 / n
                % 0x1_0000_0000;
            let from = 195493 + 8 * n + 8 * k;
            &&& number32(o, bytes, from) == (0x0374_49a2 + k * size) % 0x1_0000_0000
            &&& number32(o, bytes, from + 4) == size
        }),
{
    let n = layers.len();
    let size = page_size(total_data(layers), n);
    lemma_data_at(layers, n);
    lemma_data_at(layers, 0);
    lemma_joined_len(layers);
    assert(layers.take(n as int) =~= layers);
    assert(layers.take(0) =~= seq![]);
    lemma_entry(
        bytes,
        195493 + 8 * n as int,
        |i: nat| page_entry(size, i),
        2 * n,
        k,
        ((0x0374_49a2 + k * size) % 0x1_0000_0000) as u32,
        size,
    );
}

/// The second table of a file of the fifth version has two entries for each layer: pages of
/// one size, one behind the other, counted in 32 bits. A page holds the average of the data of
/// the layers and a twentieth more.
#[verifier::rlimit(40)]
pub proof fn law_v5_pages_follow_each_other(
    job: SliceJobV3,
    layers: Seq<LayerView>,
    created: Seq<char>,
    k: nat,
)
    requires
        layers.len() < 0x1_0000_0000,
        k < 2 * layers.len(),
    ensures
        ({
            let bytes = goo_v5_container(job, layers, created);
            let n = layers.len() as int;
            let o = ByteOrder::Little;
            let size = (data_at(layers, layers.len()) - data_at(layers, 0)) * 105 / 100 / n
                % 0x1_0000_0000;
            let from = 195493 + 8 * n + 8 * k;
            &&& number32(o, bytes, from) == (0x0374_49a2 + k * size) % 0x1_0000_0000
            &&& number32(o, bytes, from + 4) == size
        }),
{
    lemma_v5_places(job, layers, created);
    lemma_v5_page(
        goo_v5_container(job, layers, created),
        header(
            ByteOrder::Little,
            job_header(job, GOO_V5_FILE_VERSION@, layers.len(), created),
        ),
        job,
        layers,
        k,
    );
}

/// A file of the fifth version names its origin, and holds the previews of its job.
pub proof fn law_v5_file_names_its_origin(
    job: SliceJobV3,
    layers: Seq<LayerView>,
    created: Seq<char>,
)
    requires
        layers.len() < 0x1_0000_0000,
    ensures
        names_its_origin(ByteOrder::Little, goo_v5_container(job, layers, created), job, created),
{
    lemma_v5_places(job, layers, created);
    lemma_names_its_origin(
        ByteOrder::Little,
        goo_v5_container(job, layers, created),
        job,
        GOO_V5_FILE_VERSION@,
        layers.len(),
        created,
    );
}

} // verus!
