//! A writer for ZIP containers whose entries are all stored without
//! compression, as the Open Container Format asks of its first entry.

use crate::bytes::append;
use vstd::prelude::*;

verus! {

/// One file of a container.
pub struct Entry {
    pub name: Vec<u8>,
    pub data: Vec<u8>,
}

/// The mathematical content of an [`Entry`].
pub struct EntryModel {
    pub name: Seq<u8>,
    pub data: Seq<u8>,
}

impl View for Entry {
    type V = EntryModel;

    open spec fn view(&self) -> EntryModel {
        EntryModel { name: self.name@, data: self.data@ }
    }
}

/// The models of a list of entries, in order.
pub open spec fn models(entries: Seq<Entry>) -> Seq<EntryModel> {
    Seq::new(entries.len(), |i: int| entries[i]@)
}

/// Two bytes, little endian.
pub open spec fn le16(v: int) -> Seq<u8> {
    seq![(v % 256) as u8, (v / 256 % 256) as u8]
}

/// Four bytes, little endian.
pub open spec fn le32(v: int) -> Seq<u8> {
    seq![
        (v % 256) as u8,
        (v / 256 % 256) as u8,
        (v / 65536 % 256) as u8,
        (v / 16777216 % 256) as u8,
    ]
}

/// One bit of the reflected CRC-32 division.
pub open spec fn crc_shift(c: u32) -> u32 {
    if c & 1 == 1 {
        (c >> 1) ^ 0xEDB8_8320u32
    } else {
        c >> 1
    }
}

/// The CRC register after one more byte.
pub open spec fn crc_byte(c: u32, b: u8) -> u32 {
    let x0 = c ^ (b as u32);
    let x1 = crc_shift(x0);
    let x2 = crc_shift(x1);
    let x3 = crc_shift(x2);
    let x4 = crc_shift(x3);
    let x5 = crc_shift(x4);
    let x6 = crc_shift(x5);
    let x7 = crc_shift(x6);
    crc_shift(x7)
}

/// The CRC register after the first `n` bytes of `data`.
pub open spec fn crc_register(data: Seq<u8>, n: int) -> u32
    decreases n,
{
    if n <= 0 {
        0xFFFF_FFFFu32
    } else {
        crc_byte(crc_register(data, n - 1), data[n - 1])
    }
}

/// The CRC-32 checksum (polynomial 0xEDB88320, reflected) of `data`.
pub open spec fn crc32(data: Seq<u8>) -> u32 {
    crc_register(data, data.len() as int) ^ 0xFFFF_FFFFu32
}

/// Signature of a local file header.
pub open spec fn local_signature() -> Seq<u8> {
    seq![0x50u8, 0x4bu8, 0x03u8, 0x04u8]
}

/// Signature of a central directory header.
pub open spec fn central_signature() -> Seq<u8> {
    seq![0x50u8, 0x4bu8, 0x01u8, 0x02u8]
}

/// Signature of the end-of-central-directory record.
pub open spec fn end_signature() -> Seq<u8> {
    seq![0x50u8, 0x4bu8, 0x05u8, 0x06u8]
}

/// The fields that a local and a central header share: version needed,
/// flags, method (0, stored), time, date (1980-01-01), checksum, both
/// sizes, and the lengths of the name and of the (empty) extra field.
pub open spec fn common_fields(e: EntryModel) -> Seq<u8> {
    le16(20) + le16(0) + le16(0) + le16(0) + le16(33) + le32(crc32(e.data) as int) + le32(
        e.data.len() as int,
    ) + le32(e.data.len() as int) + le16(e.name.len() as int) + le16(0)
}

/// A local file header followed by the entry's bytes.
pub open spec fn local_record(e: EntryModel) -> Seq<u8> {
    local_signature() + common_fields(e) + e.name + e.data
}

/// A central directory header for an entry whose local header is at `offset`.
pub open spec fn central_record(e: EntryModel, offset: int) -> Seq<u8> {
    central_signature() + le16(20) + common_fields(e) + le16(0) + le16(0) + le16(0) + le32(0)
        + le32(offset) + e.name
}

/// The local records of the first `n` entries.
pub open spec fn locals(entries: Seq<EntryModel>, n: int) -> Seq<u8>
    decreases n,
{
    if n <= 0 {
        Seq::empty()
    } else {
        locals(entries, n - 1) + local_record(entries[n - 1])
    }
}

/// The central directory of the first `n` entries.
pub open spec fn centrals(entries: Seq<EntryModel>, n: int) -> Seq<u8>
    decreases n,
{
    if n <= 0 {
        Seq::empty()
    } else {
        centrals(entries, n - 1) + central_record(
            entries[n - 1],
            locals(entries, n - 1).len() as int,
        )
    }
}

/// The end-of-central-directory record.
pub open spec fn end_record(count: int, directory_len: int, directory_at: int) -> Seq<u8> {
    end_signature() + le16(0) + le16(0) + le16(count) + le16(count) + le32(directory_len) + le32(
        directory_at,
    ) + le16(0)
}

/// The whole container: local records, central directory, end record.
pub open spec fn archive(entries: Seq<EntryModel>) -> Seq<u8> {
    let n = entries.len() as int;
    locals(entries, n) + centrals(entries, n) + end_record(
        n,
        centrals(entries, n).len() as int,
        locals(entries, n).len() as int,
    )
}

/// The entries can be written without the 64-bit extensions: counts, name
/// lengths, sizes and offsets all fit the fields of the classic format.
pub open spec fn fits(entries: Seq<EntryModel>) -> bool {
    &&& entries.len() <= 0xFFFF
    &&& forall|i: int|
        0 <= i < entries.len() ==> (#[trigger] entries[i]).name.len() <= 0xFFFF
            && entries[i].data.len() <= 0xFFFF_FFFF
    &&& locals(entries, entries.len() as int).len() <= 0xFFFF_FFFF
    &&& centrals(entries, entries.len() as int).len() <= 0xFFFF_FFFF
}

/// `bytes` begins with a local file header that names `name`, declares
/// the method "stored" and carries no extra field, so that the entry's
/// bytes follow the name directly.
pub open spec fn first_entry_stored(bytes: Seq<u8>, name: Seq<u8>) -> bool {
    &&& bytes.len() >= 30 + name.len()
    &&& bytes.subrange(0, 4) == local_signature()
    &&& bytes[8] == 0 && bytes[9] == 0
    &&& bytes[26] as int + 256 * (bytes[27] as int) == name.len()
    &&& bytes[28] == 0 && bytes[29] == 0
    &&& bytes.subrange(30, 30 + name.len() as int) == name
}

/// The lengths of the records of an entry.
pub proof fn lemma_record_lens(e: EntryModel, offset: int)
    ensures
        common_fields(e).len() == 26,
        local_record(e).len() == 30 + e.name.len() + e.data.len(),
        central_record(e, offset).len() == 46 + e.name.len(),
{
}

/// The local records of the first entries are the beginning of the
/// local records of more entries.
pub proof fn lemma_locals_monotone(entries: Seq<EntryModel>, i: int, n: int)
    requires
        0 <= i <= n,
    ensures
        locals(entries, i).len() <= locals(entries, n).len(),
        locals(entries, n).subrange(0, locals(entries, i).len() as int) == locals(entries, i),
    decreases n - i,
{
    if i < n {
        lemma_locals_monotone(entries, i, n - 1);
        let a = locals(entries, n - 1);
        let b = local_record(entries[n - 1]);
        assert((a + b).subrange(0, locals(entries, i).len() as int) =~= a.subrange(
            0,
            locals(entries, i).len() as int,
        ));
    } else {
        assert(locals(entries, n).subrange(0, locals(entries, n).len() as int) =~= locals(
            entries,
            n,
        ));
    }
}

/// The central directory grows with the entries.
pub proof fn lemma_centrals_monotone(entries: Seq<EntryModel>, i: int, n: int)
    requires
        0 <= i <= n,
    ensures
        centrals(entries, i).len() <= centrals(entries, n).len(),
    decreases n - i,
{
    if i < n {
        lemma_centrals_monotone(entries, i, n - 1);
    }
}

/// A local record shows, at the offsets that the format fixes, the
/// signature, the method "stored" and the entry's name.
pub proof fn lemma_record_is_stored(e: EntryModel)
    requires
        e.name.len() <= 0xFFFF,
    ensures
        first_entry_stored(local_record(e), e.name),
{
    let r = local_record(e);
    let c = common_fields(e);
    assert(c.len() == 26);
    assert(r.subrange(0, 4) =~= local_signature());
    assert(forall|k: int| 0 <= k < 26 ==> r[4 + k] == c[k]);
    assert(c[4] == 0 && c[5] == 0);
    assert(r[8] == c[4] && r[9] == c[5]);
    assert(r[26] == c[22] && r[27] == c[23] && r[28] == c[24] && r[29] == c[25]);
    let n = e.name.len() as int;
    assert(c[22] == (n % 256) as u8);
    assert(c[23] == (n / 256 % 256) as u8);
    assert(r.subrange(30, 30 + e.name.len() as int) =~= e.name);
}

/// Whatever follows it, a container with at least one entry begins with
/// that entry's local record: it is stored, and named as the entry is.
pub proof fn lemma_first_entry(entries: Seq<EntryModel>)
    requires
        entries.len() > 0,
        entries[0].name.len() <= 0xFFFF,
    ensures
        first_entry_stored(archive(entries), entries[0].name),
{
    let n = entries.len() as int;
    let first = local_record(entries[0]);
    lemma_locals_monotone(entries, 1, n);
    assert(locals(entries, 0) =~= Seq::<u8>::empty());
    assert(locals(entries, 1) =~= first);
    lemma_record_is_stored(entries[0]);
    let all = archive(entries);
    let l = locals(entries, n);
    assert(all.subrange(0, l.len() as int) =~= l);
    assert(all.subrange(0, first.len() as int) =~= l.subrange(0, first.len() as int));
    assert(all.subrange(0, first.len() as int) == first);
    assert(forall|k: int| 0 <= k < first.len() ==> all[k] == all.subrange(0, first.len() as int)[k]);
    assert(all.subrange(0, 4) =~= first.subrange(0, 4));
    assert(all.subrange(30, 30 + entries[0].name.len() as int) =~= first.subrange(
        30,
        30 + entries[0].name.len() as int,
    ));
}

fn shift(c: u32) -> (r: u32)
    ensures
        r == crc_shift(c),
{
    if c & 1 == 1 {
        (c >> 1) ^ 0xEDB8_8320u32
    } else {
        c >> 1
    }
}

/// Computes the CRC-32 checksum of `data`.
pub fn checksum(data: &[u8]) -> (r: u32)
    ensures
        r == crc32(data@),
{
    let mut c: u32 = 0xFFFF_FFFFu32;
    let mut i: usize = 0;
    while i < data.len()
        invariant
            i <= data.len(),
            c == crc_register(data@, i as int),
        decreases data.len() - i,
    {
        let x0: u32 = c ^ (data[i] as u32);
        let x1: u32 = shift(x0);
        let x2: u32 = shift(x1);
        let x3: u32 = shift(x2);
        let x4: u32 = shift(x3);
        let x5: u32 = shift(x4);
        let x6: u32 = shift(x5);
        let x7: u32 = shift(x6);
        c = shift(x7);
        i += 1;
    }
    c ^ 0xFFFF_FFFFu32
}

fn put16(out: &mut Vec<u8>, v: u16)
    ensures
        final(out)@ == old(out)@ + le16(v as int),
{
    out.push((v % 256) as u8);
    out.push((v / 256) as u8);
    assert(out@ =~= old(out)@ + le16(v as int));
}

fn put32(out: &mut Vec<u8>, v: u32)
    ensures
        final(out)@ == old(out)@ + le32(v as int),
{
    out.push((v % 256) as u8);
    out.push((v / 256 % 256) as u8);
    out.push((v / 65536 % 256) as u8);
    out.push((v / 16777216) as u8);
    assert(out@ =~= old(out)@ + le32(v as int));
}

fn put_common(out: &mut Vec<u8>, e: &Entry)
    requires
        e.name.len() <= 0xFFFF,
        e.data.len() <= 0xFFFF_FFFF,
    ensures
        final(out)@ == old(out)@ + common_fields(e@),
{
    let crc = checksum(e.data.as_slice());
    put16(out, 20);
    put16(out, 0);
    put16(out, 0);
    put16(out, 0);
    put16(out, 33);
    put32(out, crc);
    put32(out, e.data.len() as u32);
    put32(out, e.data.len() as u32);
    put16(out, e.name.len() as u16);
    put16(out, 0);
    assert(out@ =~= old(out)@ + common_fields(e@));
}

fn put_local(out: &mut Vec<u8>, e: &Entry)
    requires
        e.name.len() <= 0xFFFF,
        e.data.len() <= 0xFFFF_FFFF,
    ensures
        final(out)@ == old(out)@ + local_record(e@),
{
    out.push(0x50);
    out.push(0x4b);
    out.push(0x03);
    out.push(0x04);
    assert(out@ =~= old(out)@ + local_signature());
    put_common(out, e);
    append(out, e.name.as_slice());
    append(out, e.data.as_slice());
    assert(out@ =~= old(out)@ + local_record(e@));
}

fn put_central(out: &mut Vec<u8>, e: &Entry, offset: u32)
    requires
        e.name.len() <= 0xFFFF,
        e.data.len() <= 0xFFFF_FFFF,
    ensures
        final(out)@ == old(out)@ + central_record(e@, offset as int),
{
    out.push(0x50);
    out.push(0x4b);
    out.push(0x01);
    out.push(0x02);
    assert(out@ =~= old(out)@ + central_signature());
    put16(out, 20);
    put_common(out, e);
    put16(out, 0);
    put16(out, 0);
    put16(out, 0);
    put32(out, 0);
    put32(out, offset);
    append(out, e.name.as_slice());
    assert(out@ =~= old(out)@ + central_record(e@, offset as int));
}

fn put_end(out: &mut Vec<u8>, count: u16, directory_len: u32, directory_at: u32)
    ensures
        final(out)@ == old(out)@ + end_record(
            count as int,
            directory_len as int,
            directory_at as int,
        ),
{
    out.push(0x50);
    out.push(0x4b);
    out.push(0x05);
    out.push(0x06);
    assert(out@ =~= old(out)@ + end_signature());
    put16(out, 0);
    put16(out, 0);
    put16(out, count);
    put16(out, count);
    put32(out, directory_len);
    put32(out, directory_at);
    put16(out, 0);
    assert(out@ =~= old(out)@ + end_record(
        count as int,
        directory_len as int,
        directory_at as int,
    ));
}

/// Decides whether the entries fit the classic format.
fn check_fits(entries: &Vec<Entry>) -> (ok: bool)
    ensures
        ok == fits(models(entries@)),
{
    let ghost m = models(entries@);
    if entries.len() > 0xFFFF {
        return false;
    }
    let mut at: u64 = 0;
    let mut dir: u64 = 0;
    let mut i: usize = 0;
    while i < entries.len()
        invariant
            i <= entries.len(),
            entries.len() <= 0xFFFF,
            m == models(entries@),
            at == locals(m, i as int).len(),
            dir == centrals(m, i as int).len(),
            at <= 0xFFFF_FFFF,
            dir <= 0xFFFF_FFFF,
            forall|k: int|
                0 <= k < i ==> (#[trigger] m[k]).name.len() <= 0xFFFF && m[k].data.len()
                    <= 0xFFFF_FFFF,
        decreases entries.len() - i,
    {
        let e = &entries[i];
        assert(m[i as int] == e@);
        if e.name.len() > 0xFFFF || e.data.len() > 0xFFFF_FFFF {
            return false;
        }
        proof {
            lemma_record_lens(e@, at as int);
            assert(locals(m, i + 1) == locals(m, i as int) + local_record(m[i as int]));
            assert(centrals(m, i + 1) == centrals(m, i as int) + central_record(
                m[i as int],
                at as int,
            ));
        }
        at = at + 30 + e.name.len() as u64 + e.data.len() as u64;
        dir = dir + 46 + e.name.len() as u64;
        if at > 0xFFFF_FFFF {
            proof {
                lemma_locals_monotone(m, i + 1, entries.len() as int);
            }
            return false;
        }
        if dir > 0xFFFF_FFFF {
            proof {
                lemma_centrals_monotone(m, i + 1, entries.len() as int);
            }
            return false;
        }
        i += 1;
    }
    true
}

/// Writes the entries, in order, as one ZIP container in which every
/// entry is stored, or returns `None` where they do not fit the classic
/// format's 16- and 32-bit fields.
pub fn write_archive(entries: &Vec<Entry>) -> (res: Option<Vec<u8>>)
    ensures
        res.is_some() == fits(models(entries@)),
        res matches Some(v) ==> v@ == archive(models(entries@)),
{
    if !check_fits(entries) {
        return None;
    }
    let ghost m = models(entries@);
    let n = entries.len();
    let mut out: Vec<u8> = Vec::new();
    let mut dir: Vec<u8> = Vec::new();
    let mut i: usize = 0;
    while i < n
        invariant
            i <= n,
            n == entries.len(),
            m == models(entries@),
            fits(m),
            out@ == locals(m, i as int),
            dir@ == centrals(m, i as int),
        decreases n - i,
    {
        let e = &entries[i];
        assert(m[i as int] == e@);
        proof {
            lemma_locals_monotone(m, i as int, n as int);
        }
        let offset: u32 = out.len() as u32;
        put_central(&mut dir, e, offset);
        put_local(&mut out, e);
        i += 1;
    }
    let at: u32 = out.len() as u32;
    let len: u32 = dir.len() as u32;
    append(&mut out, dir.as_slice());
    put_end(&mut out, n as u16, len, at);
    Some(out)
}

} // verus!
