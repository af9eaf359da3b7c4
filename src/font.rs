//! Fonts: TrueType/OpenType (sfnt) tables in and out of WOFF 1.0 containers.

use vstd::prelude::*;

use crate::bytes::{self, pad4, read_u16_be, read_u32_be, write_u16_be, write_u32_be};
use crate::converter::{self, ConvertError, ConvertOutput, Converter, ConverterDecl, DeclModel};
use crate::properties::{self, EntriesModel, Properties, ValueModel};
use crate::registry::{RegisterError, Registry};
use std::io::{Read, Write};

verus! {

#[verifier::external_type_specification]
#[verifier::external_body]
pub struct ExIoError(std::io::Error);

/// The raw DEFLATE stream that flate2 writes for `data` at its best compression level.
pub uninterp spec fn deflated(data: Seq<u8>) -> Seq<u8>;

/// The bytes that the raw DEFLATE stream `data` holds, if it is one.
pub uninterp spec fn inflated(data: Seq<u8>) -> Option<Seq<u8>>;

/// Relies on `flate2::write::DeflateEncoder` with `Compression::best()`: the
/// compressed stream, a function of the input.
#[verifier::external_body]
fn deflate_best(data: &[u8]) -> (r: Result<Vec<u8>, std::io::Error>)
    ensures
        r matches Ok(c) ==> c@ == deflated(data@),
{
    let mut encoder = flate2::write::DeflateEncoder::new(Vec::new(), flate2::Compression::best());
    encoder.write_all(data)?;
    encoder.finish()
}

/// Relies on `flate2::read::DeflateDecoder` read to its end: the decompressed
/// bytes, or an error when the stream is malformed.
#[verifier::external_body]
fn inflate(data: &[u8]) -> (r: Result<Vec<u8>, std::io::Error>)
    ensures
        match r {
            Ok(v) => inflated(data@) == Some(v@),
            Err(_) => inflated(data@) is None,
        },
{
    let mut decoder = flate2::read::DeflateDecoder::new(data);
    let mut out = Vec::new();
    decoder.read_to_end(&mut out)?;
    Ok(out)
}

/// Relies on the `Display` impl of `std::io::Error`: a message for the error.
#[verifier::external_body]
pub(crate) fn io_error_message(e: &std::io::Error) -> String {
    e.to_string()
}

/// `wOFF`, the first four bytes of a WOFF file.
pub const WOFF_SIGNATURE: u32 = 0x774F4646;

/// A font table: tag, checksum, data.
pub type TableModel = (u32, u32, Seq<u8>);

/// A font table.
#[derive(Debug)]
pub struct SfntTable {
    pub tag: u32,
    pub checksum: u32,
    pub data: Vec<u8>,
}

impl View for SfntTable {
    type V = TableModel;

    open spec fn view(&self) -> TableModel {
        (self.tag, self.checksum, self.data@)
    }
}

pub open spec fn tables_model(ts: Seq<SfntTable>) -> Seq<TableModel> {
    ts.map_values(|t: SfntTable| t@)
}

/// Where a table with tag `tag` goes in `s`: after every table whose tag is not greater.
pub open spec fn insert_pos(s: Seq<TableModel>, tag: u32) -> int
    decreases s.len(),
{
    if s.len() == 0 {
        0
    } else if s.last().0 > tag {
        insert_pos(s.drop_last(), tag)
    } else {
        s.len() as int
    }
}

/// `ts` sorted by tag, tables with equal tags in their first order.
pub open spec fn sort_by_tag(ts: Seq<TableModel>) -> Seq<TableModel>
    decreases ts.len(),
{
    if ts.len() == 0 {
        Seq::empty()
    } else {
        let s = sort_by_tag(ts.drop_last());
        s.insert(insert_pos(s, ts.last().0), ts.last())
    }
}

proof fn lemma_sort_len(ts: Seq<TableModel>)
    ensures
        sort_by_tag(ts).len() == ts.len(),
    decreases ts.len(),
{
    if ts.len() > 0 {
        lemma_sort_len(ts.drop_last());
        lemma_insert_pos_bounds(sort_by_tag(ts.drop_last()), ts.last().0);
    }
}

proof fn lemma_insert_pos_bounds(s: Seq<TableModel>, tag: u32)
    ensures
        0 <= insert_pos(s, tag) <= s.len(),
    decreases s.len(),
{
    if s.len() > 0 {
        lemma_insert_pos_bounds(s.drop_last(), tag);
    }
}

proof fn lemma_insert_pos_prefix(s: Seq<TableModel>, tag: u32, k: int)
    requires
        0 <= k <= s.len(),
        forall|j: int| k <= j < s.len() ==> #[trigger] s[j].0 > tag,
    ensures
        insert_pos(s, tag) == insert_pos(s.subrange(0, k), tag),
    decreases s.len() - k,
{
    if k < s.len() {
        assert(s.drop_last().subrange(0, k) =~= s.subrange(0, k));
        lemma_insert_pos_prefix(s.drop_last(), tag, k);
    } else {
        assert(s.subrange(0, k) =~= s);
    }
}

/// The tables in tag order, stably.
fn sort_tables(ts: Vec<SfntTable>) -> (r: Vec<SfntTable>)
    ensures
        tables_model(r@) == sort_by_tag(tables_model(ts@)),
{
    let ghost all = tables_model(ts@);
    let mut rest = ts;
    let mut out: Vec<SfntTable> = Vec::new();
    let ghost mut done: int = 0;
    while rest.len() > 0
        invariant
            0 <= done <= all.len(),
            all.len() == done + rest@.len(),
            tables_model(rest@) == all.subrange(done, all.len() as int),
            tables_model(out@) == sort_by_tag(all.subrange(0, done)),
        decreases rest.len(),
    {
        let ghost rest_before = tables_model(rest@);
        let t = rest.remove(0);
        let ghost tm = t@;
        proof {
            assert(rest_before[0] == tm);
            assert(all.subrange(done, all.len() as int)[0] == all[done]);
        }
        let mut pos = out.len();
        assert(tables_model(out@).subrange(0, out@.len() as int) =~= tables_model(out@));
        while pos > 0 && out[pos - 1].tag > t.tag
            invariant
                pos <= out@.len(),
                insert_pos(tables_model(out@), t.tag) == insert_pos(tables_model(out@).subrange(0, pos as int), t.tag),
            decreases pos,
        {
            proof {
                let m = tables_model(out@).subrange(0, pos as int);
                assert(m.drop_last() =~= tables_model(out@).subrange(0, pos - 1));
            }
            pos = pos - 1;
        }
        proof {
            let m = tables_model(out@).subrange(0, pos as int);
            if pos > 0 {
                assert(m.last() == tables_model(out@)[pos - 1]);
            }
        }
        let ghost before = tables_model(out@);
        out.insert(pos, t);
        proof {
            assert(tables_model(out@) =~= before.insert(pos as int, tm));
            let sub = all.subrange(0, done + 1);
            assert(done + 1 <= all.len());
            assert(sub.drop_last() =~= all.subrange(0, done));
            assert(sub.last() == tm);
            assert(tables_model(rest@) =~= rest_before.subrange(1, rest_before.len() as int));
            assert(rest_before.subrange(1, rest_before.len() as int) =~= all.subrange(done + 1, all.len() as int));
            done = done + 1;
        }
    }
    assert(all.subrange(0, done) =~= all);
    out
}

/// The directory entry of table `i` of an sfnt file: tag, checksum, offset, length.
pub open spec fn sfnt_entry(d: Seq<u8>, i: int) -> (nat, nat, nat, nat) {
    let e = 12 + 16 * i;
    (bytes::be32(d, e), bytes::be32(d, e + 4), bytes::be32(d, e + 8), bytes::be32(d, e + 12))
}

/// The tables of an sfnt file in directory order, if the directory and
/// every table lie within it.
pub open spec fn sfnt_tables(d: Seq<u8>) -> Option<(u32, Seq<TableModel>)> {
    if d.len() < 12 {
        None
    } else {
        let n = bytes::be16(d, 4);
        if d.len() < 12 + 16 * n {
            None
        } else if exists|i: int| 0 <= i < n && #[trigger] sfnt_entry(d, i).2 + sfnt_entry(d, i).3 > d.len() {
            None
        } else {
            Some(
                (
                    bytes::be32(d, 0) as u32,
                    Seq::new(
                        n,
                        |i: int|
                            (
                                sfnt_entry(d, i).0 as u32,
                                sfnt_entry(d, i).1 as u32,
                                d.subrange(
                                    sfnt_entry(d, i).2 as int,
                                    (sfnt_entry(d, i).2 + sfnt_entry(d, i).3) as int,
                                ),
                            ),
                    ),
                ),
            )
        }
    }
}

fn copy_range(data: &[u8], lo: usize, hi: usize) -> (r: Vec<u8>)
    requires
        lo <= hi <= data@.len(),
    ensures
        r@ == data@.subrange(lo as int, hi as int),
{
    let mut out: Vec<u8> = Vec::new();
    let mut i = lo;
    while i < hi
        invariant
            lo <= i <= hi <= data@.len(),
            out@ == data@.subrange(lo as int, i as int),
        decreases hi - i,
    {
        out.push(data[i]);
        assert(data@.subrange(lo as int, i + 1) =~= data@.subrange(lo as int, i as int).push(data@[i as int]));
        i = i + 1;
    }
    out
}

/// The sfnt version and the tables of a TrueType/OpenType file, in tag order.
pub fn parse_sfnt_tables(data: &[u8]) -> (r: Result<(u32, Vec<SfntTable>), ConvertError>)
    ensures
        match sfnt_tables(data@) {
            Some((v, ts)) => r matches Ok(p) && p.0 == v && tables_model(p.1@) == sort_by_tag(ts),
            None => r matches Err(ConvertError::InvalidInput(_)),
        },
{
    let len = data.len();
    if len < 12 {
        return Err(ConvertError::InvalidInput("Font file too short".to_string()));
    }
    let sf_version = match read_u32_be(data, 0) {
        Some(v) => v,
        None => return Err(ConvertError::InvalidInput("Font file too short".to_string())),
    };
    let n = match read_u16_be(data, 4) {
        Some(v) => v as usize,
        None => return Err(ConvertError::InvalidInput("Font file too short".to_string())),
    };
    if len < 12 + 16 * n {
        return Err(ConvertError::InvalidInput("Font file truncated at table directory".to_string()));
    }
    let ghost want = Seq::new(
        n as nat,
        |i: int|
            (
                sfnt_entry(data@, i).0 as u32,
                sfnt_entry(data@, i).1 as u32,
                data@.subrange(sfnt_entry(data@, i).2 as int, (sfnt_entry(data@, i).2 + sfnt_entry(data@, i).3) as int),
            ),
    );
    let mut tables: Vec<SfntTable> = Vec::new();
    let mut i: usize = 0;
    while i < n
        invariant
            i <= n,
            n == bytes::be16(data@, 4),
            len == data@.len(),
            12 + 16 * n <= len,
            forall|j: int| 0 <= j < i ==> #[trigger] sfnt_entry(data@, j).2 + sfnt_entry(data@, j).3 <= data@.len(),
            tables_model(tables@) == want.subrange(0, i as int),
            want == Seq::new(
                n as nat,
                |j: int|
                    (
                        sfnt_entry(data@, j).0 as u32,
                        sfnt_entry(data@, j).1 as u32,
                        data@.subrange(sfnt_entry(data@, j).2 as int, (sfnt_entry(data@, j).2 + sfnt_entry(data@, j).3) as int),
                    ),
            ),
        decreases n - i,
    {
        let e = 12 + 16 * i;
        let tag = read_u32_be(data, e).unwrap();
        let checksum = read_u32_be(data, e + 4).unwrap();
        let offset = read_u32_be(data, e + 8).unwrap() as usize;
        let length = read_u32_be(data, e + 12).unwrap() as usize;
        if offset > len || length > len - offset {
            assert(sfnt_entry(data@, i as int).2 + sfnt_entry(data@, i as int).3 > data@.len());
            return Err(ConvertError::InvalidInput("Table extends beyond file end".to_string()));
        }
        let ghost before = tables_model(tables@);
        let t = SfntTable { tag, checksum, data: copy_range(data, offset, offset + length) };
        assert(offset as nat == sfnt_entry(data@, i as int).2);
        assert(length as nat == sfnt_entry(data@, i as int).3);
        assert(t@ == want[i as int]);
        tables.push(t);
        assert(tables_model(tables@) =~= before.push(want[i as int]));
        assert(want.subrange(0, i + 1) =~= want.subrange(0, i as int).push(want[i as int]));
        i = i + 1;
    }
    assert(want =~= want.subrange(0, n as int));
    assert(!exists|j: int| 0 <= j < n && #[trigger] sfnt_entry(data@, j).2 + sfnt_entry(data@, j).3 > data@.len());
    Ok((sf_version, sort_tables(tables)))
}


/// How a table is stored in WOFF: compressed when that is shorter.
pub open spec fn stored(data: Seq<u8>) -> Seq<u8> {
    let c = deflated(data);
    if c.len() < data.len() {
        c
    } else {
        data
    }
}

pub open spec fn stored_all(ts: Seq<TableModel>) -> Seq<Seq<u8>> {
    ts.map_values(|t: TableModel| stored(t.2))
}

pub open spec fn datas(ts: Seq<TableModel>) -> Seq<Seq<u8>> {
    ts.map_values(|t: TableModel| t.2)
}

/// The sum of the lengths of `parts`, each rounded up to a multiple of 4.
pub open spec fn padded_sum(parts: Seq<Seq<u8>>) -> nat
    decreases parts.len(),
{
    if parts.len() == 0 {
        0
    } else {
        padded_sum(parts.drop_last()) + bytes::pad4_spec(parts.last().len())
    }
}

pub open spec fn zeros(n: nat) -> Seq<u8> {
    Seq::new(n, |i: int| 0u8)
}

/// `parts` one after another, each padded with zeros to a multiple of 4.
pub open spec fn padded_data(parts: Seq<Seq<u8>>) -> Seq<u8>
    decreases parts.len(),
{
    if parts.len() == 0 {
        Seq::empty()
    } else {
        padded_data(parts.drop_last()) + parts.last() + zeros(
            (bytes::pad4_spec(parts.last().len()) - parts.last().len()) as nat,
        )
    }
}

/// The WOFF table directory: tag, offset, stored length, original length, checksum.
pub open spec fn woff_dir(ts: Seq<TableModel>, comps: Seq<Seq<u8>>, base: nat) -> Seq<u8>
    decreases ts.len(),
{
    if ts.len() == 0 {
        Seq::empty()
    } else {
        let k = ts.len() - 1;
        woff_dir(ts.drop_last(), comps.drop_last(), base) + bytes::be32_bytes(ts[k].0) + bytes::be32_bytes(
            (base + padded_sum(comps.subrange(0, k))) as u32,
        ) + bytes::be32_bytes(comps[k].len() as u32) + bytes::be32_bytes(ts[k].2.len() as u32)
            + bytes::be32_bytes(ts[k].1)
    }
}

/// The WOFF header.
pub open spec fn woff_header(sf_version: u32, n: nat, total: nat, sfnt_size: nat) -> Seq<u8> {
    bytes::be32_bytes(WOFF_SIGNATURE) + bytes::be32_bytes(sf_version) + bytes::be32_bytes(total as u32)
        + bytes::be16_bytes(n as u16) + bytes::be16_bytes(0) + bytes::be32_bytes(sfnt_size as u32)
        + bytes::be16_bytes(1) + bytes::be16_bytes(0) + bytes::be32_bytes(0) + bytes::be32_bytes(0)
        + bytes::be32_bytes(0) + bytes::be32_bytes(0) + bytes::be32_bytes(0)
}

/// The WOFF file of the tables, if its counts and sizes fit their fields.
pub open spec fn woff_file(sf_version: u32, ts: Seq<TableModel>) -> Option<Seq<u8>> {
    let comps = stored_all(ts);
    let n = ts.len();
    let sfnt_size = 12 + 16 * n + padded_sum(datas(ts));
    let total = 44 + 20 * n + padded_sum(comps);
    if n > u16::MAX || sfnt_size > u32::MAX || total > u32::MAX {
        None
    } else {
        Some(woff_header(sf_version, n, total, sfnt_size) + woff_dir(ts, comps, 44 + 20 * n) + padded_data(comps))
    }
}

proof fn lemma_padded_sum_prefix(parts: Seq<Seq<u8>>, k: int)
    requires
        0 <= k <= parts.len(),
    ensures
        padded_sum(parts.subrange(0, k)) <= padded_sum(parts),
    decreases parts.len() - k,
{
    if k < parts.len() {
        lemma_padded_sum_prefix(parts, k + 1);
        let sub = parts.subrange(0, k + 1);
        assert(sub.drop_last() =~= parts.subrange(0, k));
    } else {
        assert(parts.subrange(0, k) =~= parts);
    }
}

fn failed(msg: &str) -> (r: ConvertError)
    ensures
        r is Failed,
{
    ConvertError::Failed(msg.to_string())
}

/// `padded_sum` of the `parts`, if it is at most `u32::MAX - base`.
fn sum_padded(parts: &Vec<Vec<u8>>, base: u64) -> (r: Option<u64>)
    requires
        base <= u32::MAX,
    ensures
        match r {
            Some(v) => v == base + padded_sum(vecs_model(parts@)) && v <= u32::MAX,
            None => base + padded_sum(vecs_model(parts@)) > u32::MAX,
        },
{
    let mut acc: u64 = base;
    let mut i: usize = 0;
    while i < parts.len()
        invariant
            i <= parts@.len(),
            acc == base + padded_sum(vecs_model(parts@).subrange(0, i as int)),
            acc <= u32::MAX,
        decreases parts.len() - i,
    {
        let len = parts[i].len();
        proof {
            let sub = vecs_model(parts@).subrange(0, i + 1);
            assert(sub.drop_last() =~= vecs_model(parts@).subrange(0, i as int));
            lemma_padded_sum_prefix(vecs_model(parts@), i + 1);
        }
        if len > 0xFFFF_FFFF {
            return None;
        }
        let l = len as u64;
        acc = acc + (l + 3) / 4 * 4;
        if acc > 0xFFFF_FFFF {
            return None;
        }
        i = i + 1;
    }
    assert(vecs_model(parts@).subrange(0, parts@.len() as int) =~= vecs_model(parts@));
    Some(acc)
}

pub open spec fn vecs_model(vs: Seq<Vec<u8>>) -> Seq<Seq<u8>> {
    vs.map_values(|v: Vec<u8>| v@)
}

fn write_bytes(buf: &mut Vec<u8>, data: &Vec<u8>)
    ensures
        final(buf)@ == old(buf)@ + data@,
{
    let mut i: usize = 0;
    let ghost start = buf@;
    while i < data.len()
        invariant
            i <= data@.len(),
            buf@ == start + data@.subrange(0, i as int),
        decreases data.len() - i,
    {
        buf.push(data[i]);
        assert(data@.subrange(0, i + 1) =~= data@.subrange(0, i as int).push(data@[i as int]));
        assert(buf@ =~= start + data@.subrange(0, i + 1));
        i = i + 1;
    }
    assert(data@.subrange(0, data@.len() as int) =~= data@);
}

fn write_zeros(buf: &mut Vec<u8>, n: usize)
    ensures
        final(buf)@ == old(buf)@ + zeros(n as nat),
{
    let mut i: usize = 0;
    let ghost start = buf@;
    while i < n
        invariant
            i <= n,
            buf@ == start + zeros(i as nat),
        decreases n - i,
    {
        buf.push(0);
        assert(buf@ =~= start + zeros((i + 1) as nat));
        i = i + 1;
    }
}

/// A WOFF file holding the tables.
pub fn build_woff(sf_version: u32, tables: &Vec<SfntTable>) -> (r: Result<Vec<u8>, ConvertError>)
    ensures
        r matches Ok(b) ==> woff_file(sf_version, tables_model(tables@)) == Some(b@),
        woff_file(sf_version, tables_model(tables@)) is None ==> r is Err,
        r matches Err(e) ==> e is Failed,
{
    let ghost ts = tables_model(tables@);
    let n = tables.len();
    // each table compressed, where that is shorter
    let mut comps: Vec<Vec<u8>> = Vec::new();
    let mut i: usize = 0;
    while i < n
        invariant
            i <= n,
            n == tables@.len(),
            ts == tables_model(tables@),
            vecs_model(comps@) == stored_all(ts).subrange(0, i as int),
        decreases n - i,
    {
        let data = &tables[i].data;
        let c = match deflate_best(data.as_slice()) {
            Ok(c) => c,
            Err(e) => return Err(ConvertError::Failed(io_error_message(&e))),
        };
        let kept = if c.len() < data.len() {
            c
        } else {
            copy_range(data.as_slice(), 0, data.len())
        };
        proof {
            assert(data@.subrange(0, data@.len() as int) =~= data@);
            assert(kept@ == stored(ts[i as int].2));
        }
        let ghost before = vecs_model(comps@);
        let ghost km = kept@;
        comps.push(kept);
        assert(vecs_model(comps@) =~= before.push(km));
        assert(stored_all(ts).subrange(0, i + 1) =~= stored_all(ts).subrange(0, i as int).push(km));
        i = i + 1;
    }
    assert(stored_all(ts).subrange(0, n as int) =~= stored_all(ts));
    let ghost cm = stored_all(ts);
    if n > 0xFFFF {
        return Err(failed("too many tables"));
    }
    // the sizes of the plain and the stored tables
    let mut plain: Vec<Vec<u8>> = Vec::new();
    let mut j: usize = 0;
    while j < n
        invariant
            j <= n,
            n == tables@.len(),
            ts == tables_model(tables@),
            vecs_model(plain@) == datas(ts).subrange(0, j as int),
        decreases n - j,
    {
        let d = copy_range(tables[j].data.as_slice(), 0, tables[j].data.len());
        assert(tables[j as int].data@.subrange(0, tables[j as int].data@.len() as int) =~= tables[j as int].data@);
        let ghost before = vecs_model(plain@);
        let ghost dm = d@;
        plain.push(d);
        assert(vecs_model(plain@) =~= before.push(dm));
        assert(datas(ts).subrange(0, j + 1) =~= datas(ts).subrange(0, j as int).push(dm));
        j = j + 1;
    }
    assert(datas(ts).subrange(0, n as int) =~= datas(ts));
    let sfnt_size = match sum_padded(&plain, (12 + 16 * n) as u64) {
        Some(v) => v,
        None => return Err(failed("font too large for WOFF")),
    };
    let total = match sum_padded(&comps, (44 + 20 * n) as u64) {
        Some(v) => v,
        None => return Err(failed("font too large for WOFF")),
    };
    let mut buf: Vec<u8> = Vec::new();
    write_u32_be(&mut buf, WOFF_SIGNATURE);
    write_u32_be(&mut buf, sf_version);
    write_u32_be(&mut buf, total as u32);
    write_u16_be(&mut buf, n as u16);
    write_u16_be(&mut buf, 0);
    write_u32_be(&mut buf, sfnt_size as u32);
    write_u16_be(&mut buf, 1);
    write_u16_be(&mut buf, 0);
    write_u32_be(&mut buf, 0);
    write_u32_be(&mut buf, 0);
    write_u32_be(&mut buf, 0);
    write_u32_be(&mut buf, 0);
    write_u32_be(&mut buf, 0);
    let ghost header = buf@;
    assert(header =~= woff_header(sf_version, n as nat, total as nat, sfnt_size as nat));
    let base = 44 + 20 * n;
    let mut offset: u64 = base as u64;
    let mut k: usize = 0;
    while k < n
        invariant
            k <= n <= 0xFFFF,
            n == tables@.len(),
            ts == tables_model(tables@),
            cm == vecs_model(comps@),
            cm.len() == n,
            base == 44 + 20 * n,
            total == base + padded_sum(cm),
            total <= u32::MAX,
            offset == base + padded_sum(cm.subrange(0, k as int)),
            buf@ == header + woff_dir(ts.subrange(0, k as int), cm.subrange(0, k as int), base as nat),
        decreases n - k,
    {
        proof {
            lemma_padded_sum_prefix(cm, k as int);
            let sub = cm.subrange(0, k + 1);
            assert(sub.drop_last() =~= cm.subrange(0, k as int));
            lemma_padded_sum_prefix(cm, k + 1);
        }
        let t = &tables[k];
        write_u32_be(&mut buf, t.tag);
        write_u32_be(&mut buf, offset as u32);
        write_u32_be(&mut buf, comps[k].len() as u32);
        write_u32_be(&mut buf, t.data.len() as u32);
        write_u32_be(&mut buf, t.checksum);
        proof {
            let tsub = ts.subrange(0, k + 1);
            let csub = cm.subrange(0, k + 1);
            assert(tsub.drop_last() =~= ts.subrange(0, k as int));
            assert(csub.drop_last() =~= cm.subrange(0, k as int));
            assert(csub.subrange(0, k as int) =~= cm.subrange(0, k as int));
        }
        offset = offset + pad4(comps[k].len()) as u64;
        k = k + 1;
    }
    assert(ts.subrange(0, n as int) =~= ts);
    assert(cm.subrange(0, n as int) =~= cm);
    let ghost dir_end = buf@;
    let mut m: usize = 0;
    while m < n
        invariant
            m <= n,
            cm == vecs_model(comps@),
            cm.len() == n,
            total == 44 + 20 * n + padded_sum(cm),
            total <= u32::MAX,
            buf@ == dir_end + padded_data(cm.subrange(0, m as int)),
        decreases n - m,
    {
        proof {
            lemma_padded_sum_prefix(cm, m + 1);
            let sub = cm.subrange(0, m + 1);
            assert(sub.drop_last() =~= cm.subrange(0, m as int));
        }
        let c = &comps[m];
        write_bytes(&mut buf, c);
        let p = pad4(c.len());
        write_zeros(&mut buf, p - c.len());
        m = m + 1;
    }
    assert(cm.subrange(0, n as int) =~= cm);
    Ok(buf)
}


/// Directory entry `i` of a WOFF file: tag, offset, stored length, original length, checksum.
pub open spec fn woff_entry(d: Seq<u8>, i: int) -> (nat, nat, nat, nat, nat) {
    let e = 44 + 20 * i;
    (
        bytes::be32(d, e),
        bytes::be32(d, e + 4),
        bytes::be32(d, e + 8),
        bytes::be32(d, e + 12),
        bytes::be32(d, e + 16),
    )
}

/// The stored bytes of entry `i` lie within the file.
pub open spec fn entry_in_bounds(d: Seq<u8>, i: int) -> bool {
    woff_entry(d, i).1 + woff_entry(d, i).2 <= d.len()
}

/// The table data of entry `i`: its stored bytes when the two lengths agree,
/// else their inflation, which must have the original length.
pub open spec fn entry_data(d: Seq<u8>, i: int) -> Option<Seq<u8>> {
    let (tag, off, cl, ol, sum) = woff_entry(d, i);
    let comp = d.subrange(off as int, (off + cl) as int);
    if cl == ol {
        Some(comp)
    } else {
        match inflated(comp) {
            Some(v) => if v.len() == ol {
                Some(v)
            } else {
                None
            },
            None => None,
        }
    }
}

pub open spec fn entry_ok(d: Seq<u8>, i: int) -> bool {
    entry_in_bounds(d, i) && entry_data(d, i) is Some
}

pub open spec fn entries_ok_upto(d: Seq<u8>, k: int) -> bool {
    forall|i: int| 0 <= i < k ==> #[trigger] entry_ok(d, i)
}

/// The header of a WOFF file is readable: long enough, signed, with its directory.
pub open spec fn woff_header_ok(d: Seq<u8>) -> bool {
    d.len() >= 44 && bytes::be32(d, 0) == WOFF_SIGNATURE && d.len() >= 44 + 20 * bytes::be16(d, 12)
}

/// The tables of a WOFF file in directory order.
pub open spec fn woff_tables(d: Seq<u8>) -> Seq<TableModel> {
    Seq::new(
        bytes::be16(d, 12),
        |i: int| (woff_entry(d, i).0 as u32, woff_entry(d, i).4 as u32, entry_data(d, i)->0),
    )
}

/// The largest power of two not above `n` (1 when `n` is 0), from `p` on.
pub open spec fn pow2_from(n: nat, p: nat) -> nat
    decreases n - p,
{
    if p > 0 && p * 2 <= n {
        pow2_from(n, p * 2)
    } else {
        p
    }
}

/// The number of halvings that bring `n` to 1 or below.
pub open spec fn log2(n: nat) -> nat
    decreases n,
{
    if n > 1 {
        1 + log2(n / 2)
    } else {
        0
    }
}

/// The sfnt offset table: version, table count, and the binary-search fields,
/// each 16-bit field taken modulo 2^16.
pub open spec fn sfnt_header(sf_version: u32, n: nat) -> Seq<u8> {
    let sr = 16 * pow2_from(n, 1);
    bytes::be32_bytes(sf_version) + bytes::be16_bytes(n as u16) + bytes::be16_bytes((sr % 65536) as u16)
        + bytes::be16_bytes(log2(n) as u16) + bytes::be16_bytes(((16 * n - sr) % 65536) as u16)
}

/// The sfnt table directory: tag, checksum, offset, length.
pub open spec fn sfnt_dir(ts: Seq<TableModel>, base: nat) -> Seq<u8>
    decreases ts.len(),
{
    if ts.len() == 0 {
        Seq::empty()
    } else {
        let k = ts.len() - 1;
        sfnt_dir(ts.drop_last(), base) + bytes::be32_bytes(ts[k].0) + bytes::be32_bytes(ts[k].1)
            + bytes::be32_bytes((base + padded_sum(datas(ts).subrange(0, k))) as u32) + bytes::be32_bytes(
            ts[k].2.len() as u32,
        )
    }
}

/// The sfnt file of tables `ts` (already in order), if its size fits 32 bits.
pub open spec fn sfnt_file(sf_version: u32, ts: Seq<TableModel>) -> Option<Seq<u8>> {
    let n = ts.len();
    if 12 + 16 * n + padded_sum(datas(ts)) > u32::MAX {
        None
    } else {
        Some(sfnt_header(sf_version, n) + sfnt_dir(ts, 12 + 16 * n) + padded_data(datas(ts)))
    }
}

fn invalid(msg: &str) -> (r: ConvertError)
    ensures
        r is InvalidInput,
{
    ConvertError::InvalidInput(msg.to_string())
}

fn sfnt_search_fields(n: u16) -> (r: (u16, u16, u16))
    ensures
        r.0 == ((16 * pow2_from(n as nat, 1)) % 65536) as u16,
        r.1 == log2(n as nat) as u16,
        r.2 == ((16 * n - 16 * pow2_from(n as nat, 1)) % 65536) as u16,
{
    let mut sr: u32 = 1;
    while sr * 2 <= n as u32
        invariant
            1 <= sr <= 65536,
            sr <= n || sr == 1,
            pow2_from(n as nat, 1) == pow2_from(n as nat, sr as nat),
        decreases 65536 - sr,
    {
        sr = sr * 2;
    }
    let mut es: u32 = 0;
    let mut x: u32 = n as u32;
    proof {
        lemma_log2_bound(n as nat);
    }
    while x > 1
        invariant
            log2(n as nat) == es + log2(x as nat),
            log2(n as nat) <= 65535,
            x <= 65535,
        decreases x,
    {
        x = x / 2;
        es = es + 1;
    }
    let sr16 = ((16 * sr) % 65536) as u16;
    let rs = ((16 * (n as u32) + 65536 - 16 * sr) % 65536) as u16;
    (sr16, es as u16, rs)
}

proof fn lemma_log2_bound(n: nat)
    ensures
        log2(n) <= n,
    decreases n,
{
    if n > 1 {
        lemma_log2_bound(n / 2);
    }
}


fn table_datas(ts: &Vec<SfntTable>) -> (r: Vec<Vec<u8>>)
    ensures
        vecs_model(r@) == datas(tables_model(ts@)),
{
    let ghost tm = tables_model(ts@);
    let mut out: Vec<Vec<u8>> = Vec::new();
    let mut j: usize = 0;
    while j < ts.len()
        invariant
            j <= ts@.len(),
            tm == tables_model(ts@),
            vecs_model(out@) == datas(tm).subrange(0, j as int),
        decreases ts.len() - j,
    {
        let d = copy_range(ts[j].data.as_slice(), 0, ts[j].data.len());
        assert(ts[j as int].data@.subrange(0, ts[j as int].data@.len() as int) =~= ts[j as int].data@);
        let ghost before = vecs_model(out@);
        let ghost dm = d@;
        out.push(d);
        assert(vecs_model(out@) =~= before.push(dm));
        assert(datas(tm).subrange(0, j + 1) =~= datas(tm).subrange(0, j as int).push(dm));
        j = j + 1;
    }
    assert(datas(tm).subrange(0, ts@.len() as int) =~= datas(tm));
    out
}

proof fn lemma_first_bad(d: Seq<u8>, i: int, k: int)
    requires
        0 <= i,
        0 <= k,
        entries_ok_upto(d, i),
        !entry_ok(d, i),
        entries_ok_upto(d, k),
        !entry_ok(d, k),
    ensures
        i == k,
{
    if k < i {
        assert(entry_ok(d, k));
    } else if k > i {
        assert(entry_ok(d, i));
    }
}

/// The tables of a WOFF file whose header is readable, in directory order.
fn read_woff_tables(data: &[u8], n: usize) -> (r: Result<Vec<SfntTable>, ConvertError>)
    requires
        woff_header_ok(data@),
        n == bytes::be16(data@, 12),
    ensures
        entries_ok_upto(data@, n as int) ==> (r matches Ok(ts) && tables_model(ts@) == woff_tables(data@)),
        r matches Ok(ts) ==> entries_ok_upto(data@, n as int) && tables_model(ts@) == woff_tables(data@),
        forall|k: int|
            0 <= k < n && entries_ok_upto(data@, k) && !entry_ok(data@, k) ==> (if entry_in_bounds(
                data@,
                k,
            ) {
                r matches Err(ConvertError::Failed(_))
            } else {
                r matches Err(ConvertError::InvalidInput(_))
            }),
{
    let len = data.len();
    let ghost d = data@;
    let ghost want = woff_tables(d);
    let mut tables: Vec<SfntTable> = Vec::new();
    let mut i: usize = 0;
    while i < n
        invariant
            i <= n,
            n == bytes::be16(d, 12),
            d == data@,
            len == data@.len(),
            44 + 20 * n <= len,
            want == woff_tables(d),
            entries_ok_upto(d, i as int),
            tables_model(tables@) == want.subrange(0, i as int),
        decreases n - i,
    {
        let e = 44 + 20 * i;
        let tag = read_u32_be(data, e).unwrap();
        let offset = read_u32_be(data, e + 4).unwrap() as usize;
        let comp_len = read_u32_be(data, e + 8).unwrap() as usize;
        let orig_len = read_u32_be(data, e + 12).unwrap() as usize;
        let checksum = read_u32_be(data, e + 16).unwrap();
        if offset > len || comp_len > len - offset {
            proof {
                assert(!entry_in_bounds(d, i as int));
                assert forall|k: int| 0 <= k < n && entries_ok_upto(d, k) && !entry_ok(d, k) implies k == i by {
                    lemma_first_bad(d, i as int, k);
                }
            }
            return Err(invalid("WOFF table data out of bounds"));
        }
        let comp = copy_range(data, offset, offset + comp_len);
        let table = if comp_len == orig_len {
            comp
        } else {
            match inflate(comp.as_slice()) {
                Ok(v) => {
                    if v.len() != orig_len {
                        proof {
                            assert(entry_data(d, i as int) is None);
                            assert forall|k: int| 0 <= k < n && entries_ok_upto(d, k) && !entry_ok(d, k) implies k == i by {
                                lemma_first_bad(d, i as int, k);
                            }
                        }
                        return Err(failed("Decompressed size mismatch"));
                    }
                    v
                },
                Err(err) => {
                    proof {
                        assert(entry_data(d, i as int) is None);
                        assert forall|k: int| 0 <= k < n && entries_ok_upto(d, k) && !entry_ok(d, k) implies k == i by {
                            lemma_first_bad(d, i as int, k);
                        }
                    }
                    return Err(ConvertError::Failed(io_error_message(&err)));
                },
            }
        };
        assert(entry_data(d, i as int) == Some(table@));
        let t = SfntTable { tag, checksum, data: table };
        assert(t@ == want[i as int]);
        let ghost before = tables_model(tables@);
        tables.push(t);
        proof {
            assert(tables_model(tables@) =~= before.push(want[i as int]));
            assert(want.subrange(0, i + 1) =~= want.subrange(0, i as int).push(want[i as int]));
            assert forall|k: int| 0 <= k < i + 1 implies #[trigger] entry_ok(d, k) by {
                if k < i {
                }
            }
        }
        i = i + 1;
    }
    assert(want.subrange(0, n as int) =~= want);
    Ok(tables)
}

/// The sfnt file of the tables, in the order given.
fn write_sfnt(sf_version: u32, sorted: &Vec<SfntTable>) -> (r: Result<Vec<u8>, ConvertError>)
    requires
        sorted@.len() <= 0xFFFF,
    ensures
        match sfnt_file(sf_version, tables_model(sorted@)) {
            Some(b) => r matches Ok(v) && v@ == b,
            None => r matches Err(ConvertError::Failed(_)),
        },
{
    let n = sorted.len();
    let ghost ts = tables_model(sorted@);
    let dm = table_datas(sorted);
    let sfnt_size = match sum_padded(&dm, (12 + 16 * n) as u64) {
        Some(v) => v,
        None => return Err(failed("font too large")),
    };
    let mut buf: Vec<u8> = Vec::new();
    let (search_range, entry_selector, range_shift) = sfnt_search_fields(n as u16);
    write_u32_be(&mut buf, sf_version);
    write_u16_be(&mut buf, n as u16);
    write_u16_be(&mut buf, search_range);
    write_u16_be(&mut buf, entry_selector);
    write_u16_be(&mut buf, range_shift);
    let ghost header = buf@;
    assert(header =~= sfnt_header(sf_version, n as nat));
    let ghost cm = datas(ts);
    let base = 12 + 16 * n;
    let mut offset: u64 = base as u64;
    let mut k: usize = 0;
    while k < n
        invariant
            k <= n <= 0xFFFF,
            n == sorted@.len(),
            ts == tables_model(sorted@),
            cm == datas(ts),
            cm == vecs_model(dm@),
            cm.len() == n,
            base == 12 + 16 * n,
            sfnt_size == base + padded_sum(cm),
            sfnt_size <= u32::MAX,
            offset == base + padded_sum(cm.subrange(0, k as int)),
            buf@ == header + sfnt_dir(ts.subrange(0, k as int), base as nat),
        decreases n - k,
    {
        proof {
            lemma_padded_sum_prefix(cm, k as int);
            let sub = cm.subrange(0, k + 1);
            assert(sub.drop_last() =~= cm.subrange(0, k as int));
            lemma_padded_sum_prefix(cm, k + 1);
        }
        let t = &sorted[k];
        write_u32_be(&mut buf, t.tag);
        write_u32_be(&mut buf, t.checksum);
        write_u32_be(&mut buf, offset as u32);
        write_u32_be(&mut buf, t.data.len() as u32);
        proof {
            let tsub = ts.subrange(0, k + 1);
            assert(tsub.drop_last() =~= ts.subrange(0, k as int));
            assert(datas(tsub).subrange(0, k as int) =~= cm.subrange(0, k as int));
        }
        offset = offset + pad4(t.data.len()) as u64;
        k = k + 1;
    }
    assert(ts.subrange(0, n as int) =~= ts);
    let ghost dir_end = buf@;
    let mut m: usize = 0;
    while m < n
        invariant
            m <= n,
            cm == vecs_model(dm@),
            cm.len() == n,
            sfnt_size == 12 + 16 * n + padded_sum(cm),
            sfnt_size <= u32::MAX,
            buf@ == dir_end + padded_data(cm.subrange(0, m as int)),
        decreases n - m,
    {
        proof {
            lemma_padded_sum_prefix(cm, m + 1);
            let sub = cm.subrange(0, m + 1);
            assert(sub.drop_last() =~= cm.subrange(0, m as int));
        }
        let c = &dm[m];
        write_bytes(&mut buf, c);
        let p = pad4(c.len());
        write_zeros(&mut buf, p - c.len());
        m = m + 1;
    }
    assert(cm.subrange(0, n as int) =~= cm);
    Ok(buf)
}

/// The TrueType/OpenType file that a WOFF file holds, its tables in tag order.
pub fn woff_to_sfnt(data: &[u8]) -> (r: Result<Vec<u8>, ConvertError>)
    ensures
        !woff_header_ok(data@) ==> r matches Err(ConvertError::InvalidInput(_)),
        woff_header_ok(data@) && entries_ok_upto(data@, bytes::be16(data@, 12) as int) ==> match sfnt_file(
            bytes::be32(data@, 4) as u32,
            sort_by_tag(woff_tables(data@)),
        ) {
            Some(b) => r matches Ok(v) && v@ == b,
            None => r matches Err(ConvertError::Failed(_)),
        },
        woff_header_ok(data@) ==> forall|k: int|
            0 <= k < bytes::be16(data@, 12) && entries_ok_upto(data@, k) && !entry_ok(data@, k) ==> (if entry_in_bounds(
                data@,
                k,
            ) {
                r matches Err(ConvertError::Failed(_))
            } else {
                r matches Err(ConvertError::InvalidInput(_))
            }),
{
    let len = data.len();
    if len < 44 {
        return Err(invalid("WOFF file too short"));
    }
    let signature = read_u32_be(data, 0).unwrap();
    if signature != WOFF_SIGNATURE {
        return Err(invalid("Not a WOFF file (bad magic)"));
    }
    let sf_version = read_u32_be(data, 4).unwrap();
    let n = read_u16_be(data, 12).unwrap() as usize;
    if len < 44 + 20 * n {
        return Err(invalid("WOFF file truncated at table directory"));
    }
    let tables = read_woff_tables(data, n)?;
    let sorted = sort_tables(tables);
    proof {
        lemma_sort_len(woff_tables(data@));
    }
    write_sfnt(sf_version, &sorted)
}


/// Wraps a TrueType font in a WOFF container.
pub struct TtfToWoff {
    decl: ConverterDecl,
}

impl TtfToWoff {
    #[verifier::type_invariant]
    closed spec fn inv(&self) -> bool {
        self.decl@ == converter::format_decl_model("font.ttf-to-woff"@, "ttf"@, "woff"@)
    }

    /// The declaration: `font.ttf-to-woff`, from `format == ttf` to `format == TO`.
    pub closed spec fn declared(&self) -> DeclModel {
        self.decl@
    }

    pub fn new() -> (r: TtfToWoff)
        ensures
            r.declared() == converter::format_decl_model("font.ttf-to-woff"@, "ttf"@, "woff"@),
    {
        let decl = converter::format_decl("font.ttf-to-woff", "ttf", "woff").description("Convert TTF font to WOFF1 container");
        TtfToWoff { decl }
    }
}

impl Converter for TtfToWoff {
    open spec fn converts(&self, input: Seq<u8>, props: EntriesModel, out: Result<ConvertOutput, ConvertError>) -> bool {
        &&& (match sfnt_tables(input) {
                None => out matches Err(ConvertError::InvalidInput(_)),
                Some((v, ts)) => match woff_file(v, sort_by_tag(ts)) {
                    None => out matches Err(ConvertError::Failed(_)),
                    Some(b) => out matches Ok(ConvertOutput::Single(d, _)) && d@ == b || out matches Err(ConvertError::Failed(_)),
                },
            })
        &&& (out matches Ok(ConvertOutput::Single(_, p)) ==> self.declared().produces(p@) && p@
                == properties::upsert(props, "format"@, ValueModel::Str("woff"@)))
    }

    open spec fn states_decl(&self) -> bool {
        true
    }

    open spec fn decl_model(&self) -> DeclModel {
        self.declared()
    }

    fn decl(&self) -> (r: &ConverterDecl)
        ensures
            r@ == self.declared(),
    {
        &self.decl
    }

    fn convert(&self, input: &[u8], props: &Properties) -> (r: Result<ConvertOutput, ConvertError>)
        ensures
            match sfnt_tables(input@) {
                None => r matches Err(ConvertError::InvalidInput(_)),
                Some((v, ts)) => match woff_file(v, sort_by_tag(ts)) {
                    None => r matches Err(ConvertError::Failed(_)),
                    Some(b) => r matches Ok(ConvertOutput::Single(d, _)) && d@ == b || r matches Err(ConvertError::Failed(_)),
                },
            },
            r matches Ok(ConvertOutput::Single(_, p)) ==> self.declared().produces(p@) && p@
                == properties::upsert(props@, "format"@, ValueModel::Str("woff"@)),
    {
        proof {
            use_type_invariant(self);
        }
        let bytes = sfnt_to_woff(input)?;
        let out = converter::with_format(props, "woff");
        proof {
            converter::lemma_format_produced(self.decl@, "woff"@, out@);
        }
        Ok(ConvertOutput::Single(bytes, out))
    }
}

/// Wraps an OpenType font in a WOFF container.
pub struct OtfToWoff {
    decl: ConverterDecl,
}

impl OtfToWoff {
    #[verifier::type_invariant]
    closed spec fn inv(&self) -> bool {
        self.decl@ == converter::format_decl_model("font.otf-to-woff"@, "otf"@, "woff"@)
    }

    /// The declaration: `font.otf-to-woff`, from `format == otf` to `format == TO`.
    pub closed spec fn declared(&self) -> DeclModel {
        self.decl@
    }

    pub fn new() -> (r: OtfToWoff)
        ensures
            r.declared() == converter::format_decl_model("font.otf-to-woff"@, "otf"@, "woff"@),
    {
        let decl = converter::format_decl("font.otf-to-woff", "otf", "woff").description("Convert OTF font to WOFF1 container");
        OtfToWoff { decl }
    }
}

impl Converter for OtfToWoff {
    open spec fn converts(&self, input: Seq<u8>, props: EntriesModel, out: Result<ConvertOutput, ConvertError>) -> bool {
        &&& (match sfnt_tables(input) {
                None => out matches Err(ConvertError::InvalidInput(_)),
                Some((v, ts)) => match woff_file(v, sort_by_tag(ts)) {
                    None => out matches Err(ConvertError::Failed(_)),
                    Some(b) => out matches Ok(ConvertOutput::Single(d, _)) && d@ == b || out matches Err(ConvertError::Failed(_)),
                },
            })
        &&& (out matches Ok(ConvertOutput::Single(_, p)) ==> self.declared().produces(p@) && p@
                == properties::upsert(props, "format"@, ValueModel::Str("woff"@)))
    }

    open spec fn states_decl(&self) -> bool {
        true
    }

    open spec fn decl_model(&self) -> DeclModel {
        self.declared()
    }

    fn decl(&self) -> (r: &ConverterDecl)
        ensures
            r@ == self.declared(),
    {
        &self.decl
    }

    fn convert(&self, input: &[u8], props: &Properties) -> (r: Result<ConvertOutput, ConvertError>)
        ensures
            match sfnt_tables(input@) {
                None => r matches Err(ConvertError::InvalidInput(_)),
                Some((v, ts)) => match woff_file(v, sort_by_tag(ts)) {
                    None => r matches Err(ConvertError::Failed(_)),
                    Some(b) => r matches Ok(ConvertOutput::Single(d, _)) && d@ == b || r matches Err(ConvertError::Failed(_)),
                },
            },
            r matches Ok(ConvertOutput::Single(_, p)) ==> self.declared().produces(p@) && p@
                == properties::upsert(props@, "format"@, ValueModel::Str("woff"@)),
    {
        proof {
            use_type_invariant(self);
        }
        let bytes = sfnt_to_woff(input)?;
        let out = converter::with_format(props, "woff");
        proof {
            converter::lemma_format_produced(self.decl@, "woff"@, out@);
        }
        Ok(ConvertOutput::Single(bytes, out))
    }
}

/// Unwraps the font of a WOFF container.
pub struct WoffToTtf {
    decl: ConverterDecl,
}

impl WoffToTtf {
    #[verifier::type_invariant]
    closed spec fn inv(&self) -> bool {
        self.decl@ == converter::format_decl_model("font.woff-to-ttf"@, "woff"@, "ttf"@)
    }

    /// The declaration: `font.woff-to-ttf`, from `format == woff` to `format == TO`.
    pub closed spec fn declared(&self) -> DeclModel {
        self.decl@
    }

    pub fn new() -> (r: WoffToTtf)
        ensures
            r.declared() == converter::format_decl_model("font.woff-to-ttf"@, "woff"@, "ttf"@),
    {
        let decl = converter::format_decl("font.woff-to-ttf", "woff", "ttf").description("Extract TTF from WOFF1 container");
        WoffToTtf { decl }
    }
}

impl Converter for WoffToTtf {
    open spec fn converts(&self, input: Seq<u8>, props: EntriesModel, out: Result<ConvertOutput, ConvertError>) -> bool {
        &&& (!woff_header_ok(input) ==> out matches Err(ConvertError::InvalidInput(_)))
        &&& (woff_header_ok(input) && entries_ok_upto(input, bytes::be16(input, 12) as int) ==> match sfnt_file(
                bytes::be32(input, 4) as u32,
                sort_by_tag(woff_tables(input)),
            ) {
                Some(b) => out matches Ok(ConvertOutput::Single(d, _)) && d@ == b,
                None => out matches Err(ConvertError::Failed(_)),
            })
        &&& (out matches Ok(ConvertOutput::Single(_, p)) ==> self.declared().produces(p@) && p@
                == properties::upsert(props, "format"@, ValueModel::Str("ttf"@)))
    }

    open spec fn states_decl(&self) -> bool {
        true
    }

    open spec fn decl_model(&self) -> DeclModel {
        self.declared()
    }

    fn decl(&self) -> (r: &ConverterDecl)
        ensures
            r@ == self.declared(),
    {
        &self.decl
    }

    fn convert(&self, input: &[u8], props: &Properties) -> (r: Result<ConvertOutput, ConvertError>)
        ensures
            !woff_header_ok(input@) ==> r matches Err(ConvertError::InvalidInput(_)),
            woff_header_ok(input@) && entries_ok_upto(input@, bytes::be16(input@, 12) as int) ==> match sfnt_file(
                bytes::be32(input@, 4) as u32,
                sort_by_tag(woff_tables(input@)),
            ) {
                Some(b) => r matches Ok(ConvertOutput::Single(d, _)) && d@ == b,
                None => r matches Err(ConvertError::Failed(_)),
            },
            r matches Ok(ConvertOutput::Single(_, p)) ==> self.declared().produces(p@) && p@
                == properties::upsert(props@, "format"@, ValueModel::Str("ttf"@)),
    {
        proof {
            use_type_invariant(self);
        }
        let bytes = woff_to_sfnt(input)?;
        let out = converter::with_format(props, "ttf");
        proof {
            converter::lemma_format_produced(self.decl@, "ttf"@, out@);
        }
        Ok(ConvertOutput::Single(bytes, out))
    }
}

/// The WOFF file of a TrueType/OpenType file: its tables in tag order.
pub fn sfnt_to_woff(input: &[u8]) -> (r: Result<Vec<u8>, ConvertError>)
    ensures
        match sfnt_tables(input@) {
            None => r matches Err(ConvertError::InvalidInput(_)),
            Some((v, ts)) => match woff_file(v, sort_by_tag(ts)) {
                None => r matches Err(ConvertError::Failed(_)),
                Some(b) => r matches Ok(d) && d@ == b || r matches Err(ConvertError::Failed(_)),
            },
        },
{
    let (sf_version, tables) = parse_sfnt_tables(input)?;
    build_woff(sf_version, &tables)
}

/// Any of the font converters.
pub enum FontConverter {
    TtfToWoff(TtfToWoff),
    OtfToWoff(OtfToWoff),
    WoffToTtf(WoffToTtf),
}

impl Converter for FontConverter {
    open spec fn converts(&self, input: Seq<u8>, props: EntriesModel, out: Result<ConvertOutput, ConvertError>) -> bool {
        match self {
            FontConverter::TtfToWoff(c) => c.converts(input, props, out),
            FontConverter::OtfToWoff(c) => c.converts(input, props, out),
            FontConverter::WoffToTtf(c) => c.converts(input, props, out),
        }
    }

    open spec fn states_decl(&self) -> bool {
        true
    }

    open spec fn decl_model(&self) -> DeclModel {
        match self {
            FontConverter::TtfToWoff(c) => c.declared(),
            FontConverter::OtfToWoff(c) => c.declared(),
            FontConverter::WoffToTtf(c) => c.declared(),
        }
    }

    fn decl(&self) -> (r: &ConverterDecl) {
        match self {
            FontConverter::TtfToWoff(c) => c.decl(),
            FontConverter::OtfToWoff(c) => c.decl(),
            FontConverter::WoffToTtf(c) => c.decl(),
        }
    }

    fn convert(&self, input: &[u8], props: &Properties) -> (r: Result<ConvertOutput, ConvertError>) {
        match self {
            FontConverter::TtfToWoff(c) => c.convert(input, props),
            FontConverter::OtfToWoff(c) => c.convert(input, props),
            FontConverter::WoffToTtf(c) => c.convert(input, props),
        }
    }
}

/// The declarations that `register_all` adds, in order.
pub open spec fn font_models() -> Seq<DeclModel> {
    seq![
        converter::format_decl_model("font.ttf-to-woff"@, "ttf"@, "woff"@),
        converter::format_decl_model("font.otf-to-woff"@, "otf"@, "woff"@),
        converter::format_decl_model("font.woff-to-ttf"@, "woff"@, "ttf"@)
    ]
}

/// Registers the three font converters, in order, stopping at the first whose id is taken.
pub fn register_all(registry: &mut Registry<FontConverter>) -> (r: Result<(), RegisterError>)
    ensures
        r is Ok <==> forall|i: int| 0 <= i < font_models().len() ==> !crate::registry::has_id(old(registry)@, #[trigger] font_models()[i].id),
        r is Ok ==> final(registry)@ == old(registry)@ + font_models(),
{
    let mut cs: Vec<FontConverter> = Vec::new();
    cs.push(FontConverter::TtfToWoff(TtfToWoff::new()));
    cs.push(FontConverter::OtfToWoff(OtfToWoff::new()));
    cs.push(FontConverter::WoffToTtf(WoffToTtf::new()));
    proof {
        reveal_strlit("font.otf-to-woff");
        reveal_strlit("font.ttf-to-woff");
        reveal_strlit("font.woff-to-ttf");
        let m = font_models();
        assert(crate::registry::models_of(cs@) =~= m);
        assert forall|i: int, j: int| 0 <= i < j < cs@.len() implies #[trigger] cs@[i].decl_model().id != #[trigger] cs@[j].decl_model().id by {
            assert(cs@[i].decl_model() == m[i]);
            assert(cs@[j].decl_model() == m[j]);
            if i == 0 && j == 1 { assert(m[0].id[5] != m[1].id[5]); }
            if i == 0 && j == 2 { assert(m[0].id[5] != m[2].id[5]); }
            if i == 1 && j == 2 { assert(m[1].id[5] != m[2].id[5]); }
        }
        assert forall|i: int| 0 <= i < cs@.len() implies #[trigger] cs@[i].states_decl() by {}
        assert forall|i: int| 0 <= i < cs@.len() implies (!crate::registry::has_id(registry@, #[trigger] cs@[i].decl_model().id) <==> !crate::registry::has_id(registry@, m[i].id)) by {
            assert(cs@[i].decl_model() == m[i]);
        }
    }
    registry.register_each(cs)
}

} // verus!
