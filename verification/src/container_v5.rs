//! The container of the fifth version: least significant bytes first, with tables of where
//! things lie and a digest at the end.

use vstd::prelude::*;

use md5::Digest;

use crate::bytes::{
    le32, low_u16, low_u32, push_bytes, push_crlf, push_u32_le, push_zeros, zeros,
};
use crate::calendar::{datetime_text, now_datetime_string, LAST_SECOND};
use crate::container::{
    header, header_parts, job_header, job_timing, layer_def, law_job_header_size,
    law_layer_def_size, stage_timing, utf8, write_header, write_layer_def, ByteOrder, HeaderFields,
    HeaderParts,
};
use crate::duration::compute_print_time_seconds;
use crate::error::SlicerV3Error;
use crate::layers::{layer_views, LayerView};
use crate::metadata::{parse_machine_z_from_metadata, parse_timing_model_from_job};
use crate::single::{layer_position, position_of_layer, Single};
use crate::text::{hex_bytes, hex_text, lemma_hex_bytes};
use crate::types::{
    GooBuildModel, GooPreparedLayer, GooTimingModel, SliceJobV3, GOO_CRLF, GOO_HEADER_SIZE,
    GOO_V5_FILE_VERSION, GOO_V5_LAYER_DEF_SIZE,
};

verus! {

/// What opens the layer section.
pub const SECTION_START: [u8; 16] = [
    0x02, 0xa4, 0xfb, 0x02, 0x00, 0x25, 0x08, 0x03, 0x00, 0x26, 0x21, 0x03, 0x00, 0x78, 0x03, 0xa1,
];

/// What lies between the tables and the layer definitions.
pub const TABLE_END: [u8; 14] = [
    0x00, 0xa3, 0x01, 0x00, 0x00, 0x00, 0x33, 0x70, 0x45, 0x00, 0x8e, 0x00, 0x00, 0x00,
];

/// Where the pages of the layers begin.
pub const PAGE_BASE: u32 = 0x0374_49a2;

/// The pattern of 1.15, which stands in the end of a container.
pub const END_FACTOR_BITS: u32 = 0x3F93_3333;

/// The digest of a message.
pub uninterp spec fn md5_of(message: Seq<u8>) -> Seq<u8>;

/// Calls `md5::Md5::digest`. The result depends on the message alone and has 16 bytes.
#[verifier::external_body]
fn md5_digest(message: &[u8]) -> (digest: Vec<u8>)
    ensures
        digest@ == md5_of(message@),
        digest@.len() == 16,
{
    md5::Md5::digest(message).to_vec()
}

/// Appends a header of the fifth version.
#[allow(clippy::too_many_arguments)]
pub fn write_goo_v5_header(
    out: &mut Vec<u8>,
    timing: &GooTimingModel,
    build: &GooBuildModel,
    software_version: &str,
    small_preview: &[u8],
    large_preview: &[u8],
    layer_count: u32,
    res_x: u16,
    res_y: u16,
    display_width_mm: Single,
    display_height_mm: Single,
    machine_z_mm: Single,
    layer_height_mm: Single,
    print_time_sec: u32,
    is_grayscale: bool,
)
    ensures
        final(out)@ == old(out)@ + header(
            ByteOrder::Little,
            (HeaderFields {
                version: GOO_V5_FILE_VERSION@,
                timing: *timing,
                build: build@,
                software_version: software_version@,
                small_preview: small_preview@,
                large_preview: large_preview@,
                layer_count,
                res_x,
                res_y,
                display_width_mm,
                display_height_mm,
                machine_z_mm,
                layer_height_mm,
                print_time_sec,
                is_grayscale,
            }),
        ),
{
    write_header(
        out,
        ByteOrder::Little,
        GOO_V5_FILE_VERSION.as_slice(),
        timing,
        build,
        software_version,
        small_preview,
        large_preview,
        layer_count,
        res_x,
        res_y,
        display_width_mm,
        display_height_mm,
        machine_z_mm,
        layer_height_mm,
        print_time_sec,
        is_grayscale,
    );
}

/// The definition of layer `index`.
pub open spec fn v5_layer_def(index: nat, timing: GooTimingModel, layer_height: Single) -> Seq<
    u8,
> {
    layer_def(
        ByteOrder::Little,
        layer_position(index, layer_height),
        stage_timing(timing, index % 0x1_0000_0000 < timing.bottom_layer_count),
    )
}

/// Appends the definition of a layer: 66 bytes.
pub fn write_goo_v5_layer_def(
    out: &mut Vec<u8>,
    layer_index: usize,
    timing: &GooTimingModel,
    layer_height_mm: Single,
)
    ensures
        final(out)@ == old(out)@ + v5_layer_def(layer_index as nat, *timing, layer_height_mm),
{
    let z: Single = position_of_layer(layer_index as u64, layer_height_mm);
    let is_bottom: bool = low_u32(layer_index as u64) < timing.bottom_layer_count;
    write_layer_def(out, ByteOrder::Little, z, is_bottom, timing);
}

/// `n` items in a row.
pub open spec fn in_a_row(n: nat, item: spec_fn(nat) -> Seq<u8>) -> Seq<u8>
    decreases n,
{
    if n == 0 {
        seq![]
    } else {
        in_a_row((n - 1) as nat, item) + item((n - 1) as nat)
    }
}

/// Where the definition of layer `i` lies in a file of `n` layers.
pub open spec fn def_address(n: nat, i: nat) -> nat {
    GOO_HEADER_SIZE as nat + 16 + 8 * n + 16 * n + 14 + GOO_V5_LAYER_DEF_SIZE as nat * i
}

/// The entry of the first table for layer `i`: where its definition lies, and its size.
pub open spec fn def_entry(n: nat, i: nat) -> Seq<u8> {
    le32((def_address(n, i) % 0x1_0000_0000) as u32) + le32(GOO_V5_LAYER_DEF_SIZE)
}

/// The bytes of all layers.
pub open spec fn total_data(layers: Seq<LayerView>) -> nat
    decreases layers.len(),
{
    if layers.len() == 0 {
        0
    } else {
        total_data(layers.drop_last()) + layers.last().encoded.len()
    }
}

/// The data of all layers, one after the other.
pub open spec fn joined_data(layers: Seq<LayerView>) -> Seq<u8>
    decreases layers.len(),
{
    if layers.len() == 0 {
        seq![]
    } else {
        joined_data(layers.drop_last()) + layers.last().encoded
    }
}

/// The size of a page for `n` layers with `total` bytes: their average and a twentieth more.
pub open spec fn page_size(total: nat, n: nat) -> u32 {
    (total * 105 / 100 / n % 0x1_0000_0000) as u32
}

/// Entry `i` of the second table: the address of a page, counted in 32 bits, and its size.
pub open spec fn page_entry(size: u32, i: nat) -> Seq<u8> {
    le32(((PAGE_BASE + i * size) % 0x1_0000_0000) as u32) + le32(size)
}

/// What comes before the digest.
pub open spec fn v5_end() -> Seq<u8> {
    Seq::<u8>::empty() + zeros(20) + le32(END_FACTOR_BITS) + le32(0) + GOO_CRLF@
}

/// The first table.
pub open spec fn def_table(n: nat) -> Seq<u8> {
    in_a_row(n, |i: nat| def_entry(n, i))
}

/// The second table: two entries for each layer.
pub open spec fn page_table(n: nat, size: u32) -> Seq<u8> {
    in_a_row(2 * n, |i: nat| page_entry(size, i))
}

/// The definitions of the layers.
pub open spec fn v5_defs(n: nat, timing: GooTimingModel, layer_height: Single) -> Seq<u8> {
    in_a_row(n, |i: nat| v5_layer_def(i, timing, layer_height))
}

/// How many layers a file states: the number of blocks, in 32 bits.
pub open spec fn stated_count(layers: Seq<LayerView>) -> nat {
    layers.len() % 0x1_0000_0000
}

/// All of a container but the digest.
pub open spec fn v5_body(job: SliceJobV3, layers: Seq<LayerView>, created: Seq<char>) -> Seq<u8> {
    let n = stated_count(layers);
    header(
        ByteOrder::Little,
        job_header(job, GOO_V5_FILE_VERSION@, layers.len(), created),
    ) + SECTION_START@ + def_table(n) + page_table(n, page_size(total_data(layers), n))
        + TABLE_END@ + v5_defs(n, job_timing(job), job.layer_height_mm) + joined_data(layers)
        + v5_end()
}

/// The container of a job, made at `created`: it ends in the digest of what comes before, in
/// hexadecimal digits.
pub open spec fn goo_v5_container(
    job: SliceJobV3,
    layers: Seq<LayerView>,
    created: Seq<char>,
) -> Seq<u8> {
    let body = v5_body(job, layers, created);
    body + utf8(hex_bytes(md5_of(body)))
}

/// A digest has 16 bytes, and the last 32 bytes are its hexadecimal digits: that of all the
/// bytes before them.
pub open spec fn ends_in_digest(bytes: Seq<u8>) -> bool {
    let digest = md5_of(bytes.take(bytes.len() - 32));
    &&& bytes.len() >= 32
    &&& digest.len() == 16
    &&& bytes.skip(bytes.len() - 32) == utf8(hex_bytes(digest))
}

/// The bytes of all layers together.
fn sum_data(prepared: &[GooPreparedLayer]) -> (r: u64)
    requires
        total_data(layer_views(prepared@)) <= u64::MAX,
    ensures
        r == total_data(layer_views(prepared@)),
{
    let ghost layers = layer_views(prepared@);
    let mut total: u64 = 0;
    let mut i: usize = 0;
    assert(layers.take(0) =~= seq![]);
    while i < prepared.len()
        invariant
            i <= prepared@.len(),
            layers == layer_views(prepared@),
            total == total_data(layers.take(i as int)),
            total_data(layers) <= u64::MAX,
        decreases prepared@.len() - i,
    {
        proof {
            assert(layers.take(i + 1).drop_last() =~= layers.take(i as int));
            lemma_total_prefix(layers, i + 1);
        }
        total = total + prepared[i].encoded.len() as u64;
        i = i + 1;
    }
    assert(layers.take(prepared@.len() as int) =~= layers);
    total
}

proof fn lemma_total_prefix(layers: Seq<LayerView>, i: int)
    requires
        0 <= i <= layers.len(),
    ensures
        total_data(layers.take(i)) <= total_data(layers),
    decreases layers.len(),
{
    if i == layers.len() {
        assert(layers.take(i) =~= layers);
    } else {
        lemma_total_prefix(layers.drop_last(), i);
        assert(layers.drop_last().take(i) =~= layers.take(i));
    }
}

/// Appends the first table.
fn push_def_table(out: &mut Vec<u8>, n: u32)
    ensures
        final(out)@ == old(out)@ + def_table(n as nat),
{
    let mut table: Vec<u8> = Vec::new();
    let ghost item = |i: nat| def_entry(n as nat, i);
    let mut i: u32 = 0;
    while i < n
        invariant
            i <= n,
            item == |i: nat| def_entry(n as nat, i),
            table@ == in_a_row(i as nat, item),
        decreases n - i,
    {
        let address: u64 = GOO_HEADER_SIZE as u64 + 30 + 24 * n as u64 + 66 * i as u64;
        push_u32_le(&mut table, low_u32(address));
        push_u32_le(&mut table, GOO_V5_LAYER_DEF_SIZE);
        proof {
            assert(address == def_address(n as nat, i as nat));
            assert(item(i as nat) == def_entry(n as nat, i as nat));
            assert(table@ =~= in_a_row(i as nat, item) + item(i as nat));
        }
        i = i + 1;
    }
    push_bytes(out, &table);
}

/// Appends the second table.
fn push_page_table(out: &mut Vec<u8>, n: u32, size: u32)
    ensures
        final(out)@ == old(out)@ + page_table(n as nat, size),
{
    let mut table: Vec<u8> = Vec::new();
    let ghost item = |i: nat| page_entry(size, i);
    let entries: u64 = 2 * n as u64;
    let mut i: u64 = 0;
    while i < entries
        invariant
            i <= entries,
            entries == 2 * n,
            item == |i: nat| page_entry(size, i),
            table@ == in_a_row(i as nat, item),
        decreases entries - i,
    {
        assert(i * size <= 0x1_FFFF_FFFF * 0xFFFF_FFFF) by (nonlinear_arith)
            requires
                0 <= i <= 0x1_FFFF_FFFF,
                0 <= size <= 0xFFFF_FFFF,
        ;
        let address: u128 = PAGE_BASE as u128 + i as u128 * size as u128;
        push_u32_le(&mut table, (address % 0x1_0000_0000) as u32);
        push_u32_le(&mut table, size);
        proof {
            assert(item(i as nat) == page_entry(size, i as nat));
            assert(table@ =~= in_a_row(i as nat, item) + item(i as nat));
        }
        i = i + 1;
    }
    push_bytes(out, &table);
}

/// Appends the definitions of `n` layers.
fn push_defs(out: &mut Vec<u8>, n: u32, timing: &GooTimingModel, layer_height_mm: Single)
    ensures
        final(out)@ == old(out)@ + v5_defs(n as nat, *timing, layer_height_mm),
{
    let mut defs: Vec<u8> = Vec::new();
    let ghost item = |i: nat| v5_layer_def(i, *timing, layer_height_mm);
    let mut i: u32 = 0;
    while i < n
        invariant
            i <= n,
            item == |i: nat| v5_layer_def(i, *timing, layer_height_mm),
            defs@ == in_a_row(i as nat, item),
        decreases n - i,
    {
        write_goo_v5_layer_def(&mut defs, i as usize, timing, layer_height_mm);
        assert(item(i as nat) == v5_layer_def(i as nat, *timing, layer_height_mm));
        i = i + 1;
    }
    push_bytes(out, &defs);
}

/// Appends the data of all layers.
fn push_data(out: &mut Vec<u8>, prepared: &[GooPreparedLayer])
    ensures
        final(out)@ == old(out)@ + joined_data(layer_views(prepared@)),
{
    let ghost layers = layer_views(prepared@);
    let ghost before = out@;
    let mut i: usize = 0;
    assert(layers.take(0) =~= seq![]);
    assert(out@ =~= before + joined_data(layers.take(0)));
    while i < prepared.len()
        invariant
            i <= prepared@.len(),
            layers == layer_views(prepared@),
            out@ == before + joined_data(layers.take(i as int)),
        decreases prepared@.len() - i,
    {
        push_bytes(out, &prepared[i].encoded);
        proof {
            assert(layers.take(i + 1).drop_last() =~= layers.take(i as int));
            assert(out@ =~= before + joined_data(layers.take(i + 1)));
        }
        i = i + 1;
    }
    assert(layers.take(prepared@.len() as int) =~= layers);
}

/// Appends what comes before the digest.
fn push_end(out: &mut Vec<u8>)
    ensures
        final(out)@ == old(out)@ + v5_end(),
{
    let mut end: Vec<u8> = Vec::new();
    push_zeros(&mut end, 20);
    push_u32_le(&mut end, END_FACTOR_BITS);
    push_u32_le(&mut end, 0);
    push_crlf(&mut end);
    push_bytes(out, &end);
}

/// The container of a job, made at `created_datetime`. There is one report at the end.
pub fn build_goo_v5_container_bytes_created_at(
    job: &SliceJobV3,
    prepared: &[GooPreparedLayer],
    created_datetime: &str,
    reports: &mut Vec<(u32, u32)>,
) -> (out: Vec<u8>)
    requires
        0 < stated_count(layer_views(prepared@)) < u32::MAX,
        total_data(layer_views(prepared@)) * 105 <= u64::MAX,
    ensures
        out@ == goo_v5_container(*job, layer_views(prepared@), created_datetime@),
        out@.len() == GOO_HEADER_SIZE + 92 + 90 * stated_count(layer_views(prepared@)) + total_data(
            layer_views(prepared@),
        ),
        ends_in_digest(out@),
        final(reports)@ == old(reports)@ + seq![
            (
                (stated_count(layer_views(prepared@)) + 1) as u32,
                (stated_count(layer_views(prepared@)) + 1) as u32,
            ),
        ],
{
    let timing: GooTimingModel = parse_timing_model_from_job(job);
    let layer_count: u32 = low_u32(prepared.len() as u64);
    let ghost layers = layer_views(prepared@);
    let parts: HeaderParts = header_parts(job, created_datetime);
    let mut out: Vec<u8> = Vec::new();
    write_goo_v5_header(
        &mut out,
        &timing,
        &parts.build,
        &parts.software_version,
        &parts.previews.small,
        &parts.previews.large,
        layer_count,
        low_u16(job.source_width_px as u64),
        low_u16(job.source_height_px as u64),
        job.build_width_mm,
        job.build_depth_mm,
        parse_machine_z_from_metadata(&job.metadata_json),
        job.layer_height_mm,
        compute_print_time_seconds(layer_count as usize, &timing),
        job.produces_grayscale_output(),
    );
    assert(out@ =~= header(
        ByteOrder::Little,
        job_header(*job, GOO_V5_FILE_VERSION@, prepared@.len(), created_datetime@),
    ));
    push_bytes(&mut out, SECTION_START.as_slice());
    push_def_table(&mut out, layer_count);
    let total: u64 = sum_data(prepared);
    let size: u32 = low_u32(total * 105 / 100 / layer_count as u64);
    push_page_table(&mut out, layer_count, size);
    push_bytes(&mut out, TABLE_END.as_slice());
    push_defs(&mut out, layer_count, &timing, job.layer_height_mm);
    push_data(&mut out, prepared);
    push_end(&mut out);
    assert(out@ == v5_body(*job, layers, created_datetime@));
    let digest: Vec<u8> = md5_digest(&out);
    let digits: String = hex_text(&digest);
    push_bytes(&mut out, digits.as_str().as_bytes());
    proof {
        law_v5_ends_in_digest(*job, layers, created_datetime@);
    }
    reports.push((layer_count + 1, layer_count + 1));
    out
}

/// The container of a job, made now. There is one report at the end. This never fails.
pub fn build_goo_v5_container_bytes_with_progress(
    job: &SliceJobV3,
    prepared: &[GooPreparedLayer],
    reports: &mut Vec<(u32, u32)>,
) -> (r: Result<Vec<u8>, SlicerV3Error>)
    requires
        0 < stated_count(layer_views(prepared@)) < u32::MAX,
        total_data(layer_views(prepared@)) * 105 <= u64::MAX,
    ensures
        exists|secs: u64|
            secs <= LAST_SECOND && (r matches Ok(out) && out@ == goo_v5_container(
                *job,
                layer_views(prepared@),
                #[trigger] datetime_text(secs as nat),
            )),
        r matches Ok(out) ==> {
            &&& out@.len() == GOO_HEADER_SIZE + 92 + 90 * stated_count(layer_views(prepared@))
                + total_data(layer_views(prepared@))
            &&& ends_in_digest(out@)
        },
        final(reports)@ == old(reports)@ + seq![
            (
                (stated_count(layer_views(prepared@)) + 1) as u32,
                (stated_count(layer_views(prepared@)) + 1) as u32,
            ),
        ],
{
    let created: String = now_datetime_string();
    Ok(build_goo_v5_container_bytes_created_at(job, prepared, &created, reports))
}

/// Items of one size lie at multiples of it.
pub(crate) proof fn lemma_in_a_row(n: nat, item: spec_fn(nat) -> Seq<u8>, size: nat)
    requires
        forall|i: nat| i < n ==> (#[trigger] item(i)).len() == size,
    ensures
        in_a_row(n, item).len() == n * size,
        forall|i: nat|
            i < n ==> in_a_row(n, item).subrange((i * size) as int, (i * size + size) as int)
                == #[trigger] item(i),
    decreases n,
{
    if n > 0 {
        let m = (n - 1) as nat;
        lemma_in_a_row(m, item, size);
        let front = in_a_row(m, item);
        assert(n * size == m * size + size) by (nonlinear_arith)
            requires
                n == m + 1,
        ;
        assert forall|i: nat| i < n implies in_a_row(n, item).subrange(
            (i * size) as int,
            (i * size + size) as int,
        ) == #[trigger] item(i) by {
            if i < m {
                assert(i * size + size <= m * size) by (nonlinear_arith)
                    requires
                        i + 1 <= m,
                ;
                assert(in_a_row(n, item).subrange((i * size) as int, (i * size + size) as int)
                    =~= front.subrange((i * size) as int, (i * size + size) as int));
            } else {
                assert(in_a_row(n, item).subrange((i * size) as int, (i * size + size) as int)
                    =~= item(m));
            }
        }
    } else {
        assert(0 * size == 0);
    }
}

pub(crate) proof fn lemma_joined_len(layers: Seq<LayerView>)
    ensures
        joined_data(layers).len() == total_data(layers),
    decreases layers.len(),
{
    if layers.len() > 0 {
        lemma_joined_len(layers.drop_last());
    }
}

/// How long the tables are.
proof fn lemma_tables_len(n: nat, size: u32)
    ensures
        def_table(n).len() == 8 * n,
        page_table(n, size).len() == 16 * n,
{
    lemma_in_a_row(n, |i: nat| def_entry(n, i), 8);
    lemma_in_a_row(2 * n, |i: nat| page_entry(size, i), 8);
}

/// How long the parts of a container are.
pub(crate) proof fn lemma_v5_parts(job: SliceJobV3, layers: Seq<LayerView>, created: Seq<char>)
    ensures
        ({
            let n = stated_count(layers);
            &&& header(
                ByteOrder::Little,
                job_header(job, GOO_V5_FILE_VERSION@, layers.len(), created),
            ).len() == GOO_HEADER_SIZE
            &&& def_table(n).len() == 8 * n
            &&& page_table(n, page_size(total_data(layers), n)).len() == 16 * n
            &&& v5_defs(n, job_timing(job), job.layer_height_mm).len() == 66 * n
            &&& joined_data(layers).len() == total_data(layers)
            &&& v5_end().len() == 30
        }),
{
    let n = stated_count(layers);
    law_job_header_size(ByteOrder::Little, job, GOO_V5_FILE_VERSION@, layers.len(), created);
    lemma_tables_len(n, page_size(total_data(layers), n));
    lemma_defs_in_a_row(n, job_timing(job), job.layer_height_mm);
    lemma_joined_len(layers);
}

/// Where the definitions of the layers lie.
pub(crate) proof fn lemma_defs_in_a_row(n: nat, timing: GooTimingModel, layer_height: Single)
    ensures
        v5_defs(n, timing, layer_height).len() == 66 * n,
        forall|i: nat|
            i < n ==> v5_defs(n, timing, layer_height).subrange((66 * i) as int, (66 * i + 66) as int)
                == #[trigger] v5_layer_def(i, timing, layer_height),
{
    let item = |i: nat| v5_layer_def(i, timing, layer_height);
    assert forall|i: nat| i < n implies (#[trigger] item(i)).len() == 66 by {
        law_layer_def_size(
            ByteOrder::Little,
            layer_position(i, layer_height),
            stage_timing(timing, i % 0x1_0000_0000 < timing.bottom_layer_count),
        );
    }
    lemma_in_a_row(n, item, 66);
    assert forall|i: nat| i < n implies v5_defs(n, timing, layer_height).subrange(
        (66 * i) as int,
        (66 * i + 66) as int,
    ) == #[trigger] v5_layer_def(i, timing, layer_height) by {
        assert(item(i) == v5_layer_def(i, timing, layer_height));
        assert(i * 66 == 66 * i);
    }
}

/// The length of what comes before the digest follows from the number and the data of the
/// layers.
pub proof fn law_v5_length(job: SliceJobV3, layers: Seq<LayerView>, created: Seq<char>)
    ensures
        v5_body(job, layers, created).len() == GOO_HEADER_SIZE + 60 + 90 * stated_count(layers)
            + total_data(layers),
{
    lemma_v5_parts(job, layers, created);
}

/// A container whose digest has 16 bytes, as every digest has, ends in the digits of that
/// digest, and its length follows from the number and the data of its layers.
pub proof fn law_v5_ends_in_digest(job: SliceJobV3, layers: Seq<LayerView>, created: Seq<char>)
    requires
        md5_of(v5_body(job, layers, created)).len() == 16,
    ensures
        goo_v5_container(job, layers, created).len() == GOO_HEADER_SIZE + 92 + 90 * stated_count(
            layers,
        ) + total_data(layers),
        ends_in_digest(goo_v5_container(job, layers, created)),
{
    let body = v5_body(job, layers, created);
    let digits = hex_bytes(md5_of(body));
    let bytes = goo_v5_container(job, layers, created);
    law_v5_length(job, layers, created);
    lemma_hex_bytes(md5_of(body));
    vstd::utf8::is_ascii_chars_encode_utf8(digits);
    assert(bytes.take(bytes.len() - 32) =~= body);
    assert(bytes.skip(bytes.len() - 32) =~= utf8(digits));
}

/// The first table tells the truth: its entry for a layer holds the address of the
/// definition of that layer, and there the definition lies.
#[verifier::rlimit(40)]
pub proof fn law_v5_table_points_to_definitions(
    job: SliceJobV3,
    layers: Seq<LayerView>,
    created: Seq<char>,
    i: nat,
)
    requires
        i < stated_count(layers),
    ensures
        ({
            let bytes = goo_v5_container(job, layers, created);
            let n = stated_count(layers);
            let entry = GOO_HEADER_SIZE + 16 + 8 * i;
            let at = def_address(n, i) as int;
            &&& bytes.subrange(entry, entry + 8) == def_entry(n, i)
            &&& bytes.subrange(at, at + 66) == v5_layer_def(
                i,
                job_timing(job),
                job.layer_height_mm,
            )
        }),
{
    let bytes = goo_v5_container(job, layers, created);
    let n = stated_count(layers);
    let entry = GOO_HEADER_SIZE + 16 + 8 * i;
    let at = def_address(n, i) as int;
    lemma_v5_parts(job, layers, created);
    let table = def_table(n);
    let item = |k: nat| def_entry(n, k);
    lemma_in_a_row(n, item, 8);
    assert(item(i) == def_entry(n, i));
    assert(i * 8 == 8 * i);
    assert(bytes.subrange(entry, entry + 8) =~= table.subrange((8 * i) as int, (8 * i + 8) as int));
    lemma_defs_in_a_row(n, job_timing(job), job.layer_height_mm);
    let defs = v5_defs(n, job_timing(job), job.layer_height_mm);
    assert(defs.subrange((66 * i) as int, (66 * i + 66) as int) == v5_layer_def(
        i,
        job_timing(job),
        job.layer_height_mm,
    ));
    assert(bytes.subrange(at, at + 66) =~= defs.subrange((66 * i) as int, (66 * i + 66) as int));
}

} // verus!
