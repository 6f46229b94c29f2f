//! The stored form of the ban table and of the address store: a header
//! with a version, records of fixed width, and whatever a later version
//! wrote behind them, which is kept as it is.

use vstd::prelude::*;
use vstd::bytes::*;
use vstd::slice::slice_subrange;
use crate::addrman::{blank, AddrMan, AddrRecord, StoredAddress, Table};
use crate::banman::{table_loaded, BanEntry, BanMan};
use crate::endpoint::{Service, ServiceFlags};
use crate::error::NetError;
use crate::netaddr::{BanAddr, BanReason, NetAddr, SubNet, Unknown};

verus! {

/// The version that this code writes.
pub const FORMAT_VERSION: u8 = 1;

/// The first four bytes of a stored ban table: `BANS`.
pub const BAN_MAGIC: u32 = 0x534e_4142;

/// The first four bytes of a stored address table: `ADDR`.
pub const ADDR_MAGIC: u32 = 0x5244_4441;

/// Magic, version and record count.
pub const HEADER_LEN: usize = 9;

/// The 64 bits of a signed number, in two's complement.
pub open spec fn i64_bits(x: i64) -> u64 {
    if x >= 0 {
        x as u64
    } else {
        (x + 0x1_0000_0000_0000_0000) as u64
    }
}

/// The signed number with the bits of `b`.
pub open spec fn bits_i64(b: u64) -> i64 {
    if b <= 0x7fff_ffff_ffff_ffff {
        b as i64
    } else {
        (b - 0x1_0000_0000_0000_0000) as i64
    }
}

/// Computes [`i64_bits`].
pub fn i64_to_bits(x: i64) -> (r: u64)
    ensures
        r == i64_bits(x),
{
    if x >= 0 {
        x as u64
    } else {
        (x as i128 + 0x1_0000_0000_0000_0000i128) as u64
    }
}

/// Computes [`bits_i64`].
pub fn bits_to_i64(b: u64) -> (r: i64)
    ensures
        r == bits_i64(b),
{
    if b <= 0x7fff_ffff_ffff_ffff {
        b as i64
    } else {
        (b as i128 - 0x1_0000_0000_0000_0000i128) as i64
    }
}

/// A value with a stored form of fixed width.
pub trait Record: Sized + Copy {
    /// The number of bytes of every stored record.
    spec fn width() -> nat;

    /// The stored form.
    spec fn bytes(&self) -> Seq<u8>;

    /// The value that `b` is the stored form of, if it is one.
    spec fn parsed(b: Seq<u8>) -> Option<Self>;

    /// What was stored is read back as it was.
    proof fn lemma_round_trip(&self)
        ensures
            self.bytes().len() == Self::width(),
            Self::parsed(self.bytes()) == Some(*self),
    ;

    /// Computes [`Record::width`].
    fn record_width() -> (w: usize)
        ensures
            w == Self::width(),
            0 < w <= 256,
    ;

    /// Appends the stored form to `out`.
    fn write(&self, out: &mut Vec<u8>)
        ensures
            final(out)@ == old(out)@ + self.bytes(),
    ;

    /// Reads one record.
    fn read(b: &[u8]) -> (r: Option<Self>)
        requires
            b@.len() == Self::width(),
        ensures
            r == Self::parsed(b@),
    ;
}

/// The stored forms of `items`, one behind the other.
pub open spec fn records_bytes<R: Record>(items: Seq<R>) -> Seq<u8>
    decreases items.len(),
{
    if items.len() == 0 {
        Seq::empty()
    } else {
        records_bytes(items.drop_last()) + items.last().bytes()
    }
}

/// The first `n` records of `b`, if each of them is well formed.
pub open spec fn records_parsed<R: Record>(b: Seq<u8>, n: nat) -> Option<Seq<R>>
    decreases n,
{
    if n == 0 {
        Some(Seq::empty())
    } else {
        match records_parsed::<R>(b, (n - 1) as nat) {
            Some(items) => match R::parsed(b.subrange((n - 1) * R::width(), (n * R::width()) as int)) {
                Some(r) => Some(items.push(r)),
                None => None,
            },
            None => None,
        }
    }
}

/// A stored table: the magic, the version, the number of records, the
/// records, and the bytes that follow them.
pub open spec fn file_bytes<R: Record>(magic: u32, version: u8, items: Seq<R>, trailer: Seq<u8>) -> Seq<
    u8,
> {
    spec_u32_to_le_bytes(magic) + seq![version] + spec_u32_to_le_bytes(items.len() as u32)
        + records_bytes(items) + trailer
}

/// What a stored table holds: its version, its records and the bytes
/// behind them. Nothing where the magic is another, the version is 0, the
/// bytes end before the last record does, or a record is malformed.
pub open spec fn file_parsed<R: Record>(magic: u32, b: Seq<u8>) -> Option<(u8, Seq<R>, Seq<u8>)> {
    if b.len() < HEADER_LEN || spec_u32_from_le_bytes(b.subrange(0, 4)) != magic || b[4] == 0 {
        None
    } else {
        let n: nat = spec_u32_from_le_bytes(b.subrange(5, 9)) as nat;
        if b.len() - HEADER_LEN < n * R::width() {
            None
        } else {
            match records_parsed::<R>(b.skip(HEADER_LEN as int), n) {
                Some(items) => Some((b[4], items, b.skip(HEADER_LEN + n * R::width()))),
                None => None,
            }
        }
    }
}

proof fn lemma_records_len<R: Record>(items: Seq<R>)
    ensures
        records_bytes(items).len() == items.len() * R::width(),
    decreases items.len(),
{
    if items.len() > 0 {
        lemma_records_len(items.drop_last());
        items.last().lemma_round_trip();
        assert((items.len() - 1) * R::width() + R::width() == items.len() * R::width())
            by (nonlinear_arith);
    }
}

proof fn lemma_records_round_trip<R: Record>(items: Seq<R>, rest: Seq<u8>)
    ensures
        records_parsed::<R>(records_bytes(items) + rest, items.len()) == Some(items),
    decreases items.len(),
{
    if items.len() > 0 {
        let head: Seq<R> = items.drop_last();
        let last: R = items.last();
        let w: nat = R::width();
        let b: Seq<u8> = records_bytes(items) + rest;
        lemma_records_len(head);
        lemma_records_len(items);
        last.lemma_round_trip();
        lemma_records_round_trip(head, last.bytes() + rest);
        assert(b =~= records_bytes(head) + (last.bytes() + rest));
        assert((items.len() - 1) * w + w == items.len() * w) by (nonlinear_arith);
        assert(b.subrange((items.len() - 1) * w, (items.len() * w) as int) =~= last.bytes());
        assert(head.push(last) =~= items);
    }
}

proof fn lemma_parse_fails_on<R: Record>(b: Seq<u8>, i: nat, n: nat)
    requires
        i <= n,
        records_parsed::<R>(b, i) is None,
    ensures
        records_parsed::<R>(b, n) is None,
    decreases n,
{
    if i < n {
        lemma_parse_fails_on::<R>(b, i, (n - 1) as nat);
    }
}

/// A table that was stored is read back as it was, with its version and
/// with what followed it.
pub proof fn lemma_file_round_trip<R: Record>(magic: u32, version: u8, items: Seq<R>, trailer: Seq<u8>)
    requires
        version > 0,
        items.len() <= u32::MAX,
    ensures
        file_parsed::<R>(magic, file_bytes(magic, version, items, trailer)) == Some(
            (version, items, trailer),
        ),
{
    let b: Seq<u8> = file_bytes(magic, version, items, trailer);
    let m: Seq<u8> = spec_u32_to_le_bytes(magic);
    let c: Seq<u8> = spec_u32_to_le_bytes(items.len() as u32);
    lemma_auto_spec_u32_to_from_le_bytes();
    lemma_records_len(items);
    lemma_records_round_trip(items, trailer);
    assert(b.subrange(0, 4) =~= m);
    assert(b[4] == version);
    assert(b.subrange(5, 9) =~= c);
    assert(b.skip(HEADER_LEN as int) =~= records_bytes(items) + trailer);
    assert(b.skip(HEADER_LEN + items.len() * R::width()) =~= trailer);
}

/// A stored table, read.
#[derive(Clone, Debug, PartialEq, Eq)]
pub struct Stored<R> {
    /// The version that wrote it.
    pub version: u8,
    pub items: Vec<R>,
    /// What followed the records: kept, not understood.
    pub trailer: Vec<u8>,
}

/// Writes a table. Fails where the version is 0 or the records are more
/// than their count can say.
pub fn encode_file<R: Record>(magic: u32, version: u8, items: &Vec<R>, trailer: &Vec<u8>) -> (r:
    Result<Vec<u8>, NetError>)
    ensures
        match r {
            Ok(bytes) => version > 0 && items@.len() <= u32::MAX && bytes@ == file_bytes(
                magic,
                version,
                items@,
                trailer@,
            ),
            Err(e) => e == NetError::PersistenceError && (version == 0 || items@.len() > u32::MAX),
        },
{
    if version == 0 || items.len() as u64 > u32::MAX as u64 {
        return Err(NetError::PersistenceError);
    }
    let mut out: Vec<u8> = u32_to_le_bytes(magic);
    out.push(version);
    let mut count: Vec<u8> = u32_to_le_bytes(items.len() as u32);
    out.append(&mut count);
    let ghost header: Seq<u8> = out@;
    let mut i: usize = 0;
    while i < items.len()
        invariant
            i <= items@.len(),
            out@ == header + records_bytes(items@.take(i as int)),
        decreases items@.len() - i,
    {
        proof {
            assert(items@.take(i + 1).drop_last() == items@.take(i as int));
        }
        items[i].write(&mut out);
        assert(out@ =~= header + records_bytes(items@.take(i + 1)));
        i += 1;
    }
    assert(items@.take(items@.len() as int) == items@);
    let mut k: usize = 0;
    let ghost body: Seq<u8> = out@;
    while k < trailer.len()
        invariant
            k <= trailer@.len(),
            out@ == body + trailer@.take(k as int),
        decreases trailer@.len() - k,
    {
        out.push(trailer[k]);
        assert(out@ =~= body + trailer@.take(k + 1));
        k += 1;
    }
    assert(trailer@.take(trailer@.len() as int) == trailer@);
    Ok(out)
}

/// Reads a table.
pub fn decode_file<R: Record>(magic: u32, bytes: &Vec<u8>) -> (r: Result<Stored<R>, NetError>)
    ensures
        match r {
            Ok(s) => file_parsed::<R>(magic, bytes@) == Some((s.version, s.items@, s.trailer@)),
            Err(e) => e == NetError::PersistenceError && file_parsed::<R>(magic, bytes@) is None,
        },
{
    let all: &[u8] = bytes.as_slice();
    if all.len() < HEADER_LEN {
        return Err(NetError::PersistenceError);
    }
    if u32_from_le_bytes(slice_subrange(all, 0, 4)) != magic {
        return Err(NetError::PersistenceError);
    }
    let version: u8 = all[4];
    if version == 0 {
        return Err(NetError::PersistenceError);
    }
    let n: u32 = u32_from_le_bytes(slice_subrange(all, 5, 9));
    let w: usize = R::record_width();
    assert(n * w <= 0x100_0000_0000) by (nonlinear_arith)
        requires
            n <= 0xffff_ffff,
            0 < w <= 256,
    ;
    let need: u64 = n as u64 * w as u64;
    if ((all.len() - HEADER_LEN) as u64) < need {
        return Err(NetError::PersistenceError);
    }
    let ghost body: Seq<u8> = bytes@.skip(HEADER_LEN as int);
    let mut items: Vec<R> = Vec::new();
    let mut i: usize = 0;
    while i < n as usize
        invariant
            i <= n,
            w == R::width(),
            0 < w <= 256,
            all@ == bytes@,
            body == bytes@.skip(HEADER_LEN as int),
            HEADER_LEN + n * w <= bytes@.len() <= usize::MAX,
            spec_u32_from_le_bytes(bytes@.subrange(0, 4)) == magic,
            bytes@[4] != 0,
            n == spec_u32_from_le_bytes(bytes@.subrange(5, 9)),
            records_parsed::<R>(body, i as nat) == Some(items@),
        decreases n - i,
    {
        assert((i + 1) * w <= n * w && i * w + w == (i + 1) * w && 0 <= i * w) by (nonlinear_arith)
            requires
                0 <= i,
                i + 1 <= n,
                0 < w,
        ;
        let chunk: &[u8] = slice_subrange(all, HEADER_LEN + i * w, HEADER_LEN + i * w + w);
        assert(chunk@ =~= body.subrange(i * w, (i + 1) * w));
        match R::read(chunk) {
            Some(r) => {
                proof {
                    let next: nat = (i + 1) as nat;
                    assert(body.subrange((next - 1) * R::width(), (next * R::width()) as int)
                        == chunk@);
                }
                items.push(r);
            },
            None => {
                proof {
                    let next: nat = (i + 1) as nat;
                    assert(body.subrange((next - 1) * R::width(), (next * R::width()) as int)
                        == chunk@);
                    assert(records_parsed::<R>(body, next) is None);
                    lemma_parse_fails_on::<R>(body, next, n as nat);
                }
                return Err(NetError::PersistenceError);
            },
        }
        i += 1;
    }
    let start: usize = HEADER_LEN + n as usize * w;
    let mut trailer: Vec<u8> = Vec::new();
    let mut k: usize = start;
    while k < all.len()
        invariant
            start <= k <= all@.len(),
            all@ == bytes@,
            trailer@ == bytes@.subrange(start as int, k as int),
        decreases all@.len() - k,
    {
        trailer.push(all[k]);
        assert(trailer@ =~= bytes@.subrange(start as int, k + 1));
        k += 1;
    }
    assert(trailer@ =~= bytes@.skip(start as int));
    Ok(Stored { version, items, trailer })
}

/// The stored form of a ban: the kind of target (0 an address, 1 a
/// range), the 16 bytes of the address and the 4 of its scope, the prefix
/// length (0 for an address), the reason, and the 8 bytes of the expiry.
/// Numbers are stored low byte first.
pub open spec fn ban_bytes(e: BanEntry) -> Seq<u8> {
    let net: NetAddr = match e.target {
        BanAddr::Net(a) => a,
        BanAddr::Sub(s) => s.network,
    };
    let kind: u8 = match e.target {
        BanAddr::Net(a) => 0u8,
        BanAddr::Sub(s) => 1u8,
    };
    let prefix: u8 = match e.target {
        BanAddr::Net(a) => 0u8,
        BanAddr::Sub(s) => s.prefix_len,
    };
    seq![kind] + spec_u128_to_le_bytes(net.ip) + spec_u32_to_le_bytes(net.scope_id.inner)
        + seq![prefix, reason_code(e.reason)] + spec_u64_to_le_bytes(i64_bits(e.expiry))
}

/// The number that stands for a reason.
pub open spec fn reason_code(reason: BanReason) -> u8 {
    match reason {
        BanReason::BanReasonUnknown => 0,
        BanReason::BanReasonNodeMisbehaving => 1,
        BanReason::BanReasonManuallyAdded => 2,
    }
}

/// The reason that `code` stands for.
pub open spec fn code_reason(code: u8) -> Option<BanReason> {
    if code == 0 {
        Some(BanReason::BanReasonUnknown)
    } else if code == 1 {
        Some(BanReason::BanReasonNodeMisbehaving)
    } else if code == 2 {
        Some(BanReason::BanReasonManuallyAdded)
    } else {
        None
    }
}

/// The ban that 31 bytes are the stored form of. There is none where the
/// kind or the reason is unknown, or an address comes with a prefix length.
pub open spec fn ban_parsed(b: Seq<u8>) -> Option<BanEntry> {
    let net: NetAddr = NetAddr {
        ip: spec_u128_from_le_bytes(b.subrange(1, 17)),
        scope_id: Unknown { inner: spec_u32_from_le_bytes(b.subrange(17, 21)) },
    };
    let expiry: i64 = bits_i64(spec_u64_from_le_bytes(b.subrange(23, 31)));
    if b[0] > 1 || code_reason(b[22]) is None || (b[0] == 0 && b[21] != 0) {
        None
    } else {
        Some(
            BanEntry {
                target: if b[0] == 0 {
                    BanAddr::Net(net)
                } else {
                    BanAddr::Sub(SubNet { network: net, prefix_len: b[21] })
                },
                reason: code_reason(b[22])->0,
                expiry,
            },
        )
    }
}

impl Record for BanEntry {
    open spec fn width() -> nat {
        31
    }

    open spec fn bytes(&self) -> Seq<u8> {
        ban_bytes(*self)
    }

    open spec fn parsed(b: Seq<u8>) -> Option<Self> {
        ban_parsed(b)
    }

    proof fn lemma_round_trip(&self) {
        let b: Seq<u8> = ban_bytes(*self);
        let net: NetAddr = match self.target {
            BanAddr::Net(a) => a,
            BanAddr::Sub(s) => s.network,
        };
        lemma_auto_spec_u128_to_from_le_bytes();
        lemma_auto_spec_u32_to_from_le_bytes();
        lemma_auto_spec_u64_to_from_le_bytes();
        assert(b.subrange(1, 17) =~= spec_u128_to_le_bytes(net.ip));
        assert(b.subrange(17, 21) =~= spec_u32_to_le_bytes(net.scope_id.inner));
        assert(b.subrange(23, 31) =~= spec_u64_to_le_bytes(i64_bits(self.expiry)));
    }

    fn record_width() -> (w: usize) {
        31
    }

    fn write(&self, out: &mut Vec<u8>) {
        let ghost start: Seq<u8> = out@;
        let (kind, net, prefix): (u8, NetAddr, u8) = match self.target {
            BanAddr::Net(a) => (0, a, 0),
            BanAddr::Sub(s) => (1, s.network, s.prefix_len),
        };
        let reason: u8 = match self.reason {
            BanReason::BanReasonUnknown => 0,
            BanReason::BanReasonNodeMisbehaving => 1,
            BanReason::BanReasonManuallyAdded => 2,
        };
        out.push(kind);
        let mut ip: Vec<u8> = u128_to_le_bytes(net.ip);
        out.append(&mut ip);
        let mut scope: Vec<u8> = u32_to_le_bytes(net.scope_id.inner);
        out.append(&mut scope);
        out.push(prefix);
        out.push(reason);
        let mut expiry: Vec<u8> = u64_to_le_bytes(i64_to_bits(self.expiry));
        out.append(&mut expiry);
        assert(out@ =~= start + ban_bytes(*self));
    }

    fn read(b: &[u8]) -> (r: Option<Self>) {
        let kind: u8 = b[0];
        let prefix: u8 = b[21];
        let reason: BanReason = match b[22] {
            0 => BanReason::BanReasonUnknown,
            1 => BanReason::BanReasonNodeMisbehaving,
            2 => BanReason::BanReasonManuallyAdded,
            _ => {
                return None;
            },
        };
        if kind > 1 || (kind == 0 && prefix != 0) {
            return None;
        }
        let net = NetAddr {
            ip: u128_from_le_bytes(slice_subrange(b, 1, 17)),
            scope_id: Unknown { inner: u32_from_le_bytes(slice_subrange(b, 17, 21)) },
        };
        let expiry: i64 = bits_to_i64(u64_from_le_bytes(slice_subrange(b, 23, 31)));
        let target: BanAddr = if kind == 0 {
            BanAddr::Net(net)
        } else {
            BanAddr::Sub(SubNet { network: net, prefix_len: prefix })
        };
        Some(BanEntry { target, reason, expiry })
    }
}

/// The stored form of an address record: its table (0 "new", 1 "tried"),
/// address, scope, port and capabilities of the endpoint, address and
/// scope of the source, last-seen and last-success times, successes and
/// failures. Numbers are stored low byte first.
pub open spec fn address_bytes(item: StoredAddress) -> Seq<u8> {
    let r: AddrRecord = item.record;
    seq![
        if item.table == Table::Tried {
            1u8
        } else {
            0u8
        },
    ] + spec_u128_to_le_bytes(r.service.inner.ip) + spec_u32_to_le_bytes(
        r.service.inner.scope_id.inner,
    ) + spec_u16_to_le_bytes(r.service.port) + spec_u64_to_le_bytes(r.service.services.bits)
        + spec_u128_to_le_bytes(r.source.ip) + spec_u32_to_le_bytes(r.source.scope_id.inner)
        + spec_u64_to_le_bytes(i64_bits(r.last_seen)) + spec_u64_to_le_bytes(
        i64_bits(r.last_success),
    ) + spec_u32_to_le_bytes(r.successes) + spec_u32_to_le_bytes(r.failures)
}

/// The address record that 75 bytes are the stored form of. There is none
/// where the table is unknown.
pub open spec fn address_parsed(b: Seq<u8>) -> Option<StoredAddress> {
    if b[0] > 1 {
        None
    } else {
        Some(
            StoredAddress {
                table: if b[0] == 1 {
                    Table::Tried
                } else {
                    Table::New
                },
                record: AddrRecord {
                    service: Service {
                        inner: NetAddr {
                            ip: spec_u128_from_le_bytes(b.subrange(1, 17)),
                            scope_id: Unknown { inner: spec_u32_from_le_bytes(b.subrange(17, 21)) },
                        },
                        port: spec_u16_from_le_bytes(b.subrange(21, 23)),
                        services: ServiceFlags { bits: spec_u64_from_le_bytes(b.subrange(23, 31)) },
                    },
                    source: NetAddr {
                        ip: spec_u128_from_le_bytes(b.subrange(31, 47)),
                        scope_id: Unknown { inner: spec_u32_from_le_bytes(b.subrange(47, 51)) },
                    },
                    last_seen: bits_i64(spec_u64_from_le_bytes(b.subrange(51, 59))),
                    last_success: bits_i64(spec_u64_from_le_bytes(b.subrange(59, 67))),
                    successes: spec_u32_from_le_bytes(b.subrange(67, 71)),
                    failures: spec_u32_from_le_bytes(b.subrange(71, 75)),
                },
            },
        )
    }
}

impl Record for StoredAddress {
    open spec fn width() -> nat {
        75
    }

    open spec fn bytes(&self) -> Seq<u8> {
        address_bytes(*self)
    }

    open spec fn parsed(b: Seq<u8>) -> Option<Self> {
        address_parsed(b)
    }

    proof fn lemma_round_trip(&self) {
        let b: Seq<u8> = address_bytes(*self);
        let r: AddrRecord = self.record;
        lemma_auto_spec_u128_to_from_le_bytes();
        lemma_auto_spec_u16_to_from_le_bytes();
        lemma_auto_spec_u32_to_from_le_bytes();
        lemma_auto_spec_u64_to_from_le_bytes();
        assert(b.subrange(1, 17) =~= spec_u128_to_le_bytes(r.service.inner.ip));
        assert(b.subrange(17, 21) =~= spec_u32_to_le_bytes(r.service.inner.scope_id.inner));
        assert(b.subrange(21, 23) =~= spec_u16_to_le_bytes(r.service.port));
        assert(b.subrange(23, 31) =~= spec_u64_to_le_bytes(r.service.services.bits));
        assert(b.subrange(31, 47) =~= spec_u128_to_le_bytes(r.source.ip));
        assert(b.subrange(47, 51) =~= spec_u32_to_le_bytes(r.source.scope_id.inner));
        assert(b.subrange(51, 59) =~= spec_u64_to_le_bytes(i64_bits(r.last_seen)));
        assert(b.subrange(59, 67) =~= spec_u64_to_le_bytes(i64_bits(r.last_success)));
        assert(b.subrange(67, 71) =~= spec_u32_to_le_bytes(r.successes));
        assert(b.subrange(71, 75) =~= spec_u32_to_le_bytes(r.failures));
    }

    fn record_width() -> (w: usize) {
        75
    }

    fn write(&self, out: &mut Vec<u8>) {
        let ghost start: Seq<u8> = out@;
        let r: AddrRecord = self.record;
        out.push(
            match self.table {
                Table::Tried => 1,
                Table::New => 0,
            },
        );
        let mut ip: Vec<u8> = u128_to_le_bytes(r.service.inner.ip);
        out.append(&mut ip);
        let mut scope: Vec<u8> = u32_to_le_bytes(r.service.inner.scope_id.inner);
        out.append(&mut scope);
        let mut port: Vec<u8> = u16_to_le_bytes(r.service.port);
        out.append(&mut port);
        let mut flags: Vec<u8> = u64_to_le_bytes(r.service.services.bits);
        out.append(&mut flags);
        let mut source_ip: Vec<u8> = u128_to_le_bytes(r.source.ip);
        out.append(&mut source_ip);
        let mut source_scope: Vec<u8> = u32_to_le_bytes(r.source.scope_id.inner);
        out.append(&mut source_scope);
        let mut seen: Vec<u8> = u64_to_le_bytes(i64_to_bits(r.last_seen));
        out.append(&mut seen);
        let mut success: Vec<u8> = u64_to_le_bytes(i64_to_bits(r.last_success));
        out.append(&mut success);
        let mut successes: Vec<u8> = u32_to_le_bytes(r.successes);
        out.append(&mut successes);
        let mut failures: Vec<u8> = u32_to_le_bytes(r.failures);
        out.append(&mut failures);
        assert(out@ =~= start + address_bytes(*self));
    }

    fn read(b: &[u8]) -> (r: Option<Self>) {
        let table: Table = match b[0] {
            0 => Table::New,
            1 => Table::Tried,
            _ => {
                return None;
            },
        };
        let record = AddrRecord {
            service: Service {
                inner: NetAddr {
                    ip: u128_from_le_bytes(slice_subrange(b, 1, 17)),
                    scope_id: Unknown { inner: u32_from_le_bytes(slice_subrange(b, 17, 21)) },
                },
                port: u16_from_le_bytes(slice_subrange(b, 21, 23)),
                services: ServiceFlags { bits: u64_from_le_bytes(slice_subrange(b, 23, 31)) },
            },
            source: NetAddr {
                ip: u128_from_le_bytes(slice_subrange(b, 31, 47)),
                scope_id: Unknown { inner: u32_from_le_bytes(slice_subrange(b, 47, 51)) },
            },
            last_seen: bits_to_i64(u64_from_le_bytes(slice_subrange(b, 51, 59))),
            last_success: bits_to_i64(u64_from_le_bytes(slice_subrange(b, 59, 67))),
            successes: u32_from_le_bytes(slice_subrange(b, 67, 71)),
            failures: u32_from_le_bytes(slice_subrange(b, 71, 75)),
        };
        Some(StoredAddress { table, record })
    }
}

/// What a stored table carries along for later versions: the version
/// that wrote it and the bytes behind its records.
#[derive(Clone, Debug, PartialEq, Eq)]
pub struct Carried {
    pub version: u8,
    pub trailer: Vec<u8>,
}

impl Carried {
    /// What a table written by this version carries: its version and no
    /// further bytes.
    pub fn none() -> (r: Self)
        ensures
            r.version == FORMAT_VERSION,
            r.trailer@ == Seq::<u8>::empty(),
    {
        Carried { version: FORMAT_VERSION, trailer: Vec::new() }
    }
}

/// The stored form of the ban table, with what it carries along.
pub fn encode_bans(bans: &BanMan, extra: &Carried) -> (r: Result<Vec<u8>, NetError>)
    requires
        bans.wf(),
    ensures
        match r {
            Ok(bytes) => extra.version > 0 && bans.listing().len() <= u32::MAX && bytes@
                == file_bytes(BAN_MAGIC, extra.version, bans.listing(), extra.trailer@),
            Err(e) => e == NetError::PersistenceError && (extra.version == 0
                || bans.listing().len() > u32::MAX),
        },
{
    let items: Vec<BanEntry> = bans.snapshot();
    encode_file(BAN_MAGIC, extra.version, &items, &extra.trailer)
}

/// The ban table that `bytes` are the stored form of, as it stands at
/// `now`, and what it carried along.
pub fn decode_bans(bytes: &Vec<u8>, now: i64) -> (r: Result<(BanMan, Carried), NetError>)
    ensures
        match (r, file_parsed::<BanEntry>(BAN_MAGIC, bytes@)) {
            (Ok((bans, extra)), Some(parsed)) => bans.wf() && extra.version == parsed.0 && bans@
                == table_loaded(parsed.1, now) && extra.trailer@ == parsed.2,
            (Err(e), None) => e == NetError::PersistenceError,
            _ => false,
        },
{
    match decode_file::<BanEntry>(BAN_MAGIC, bytes) {
        Ok(stored) => {
            let bans: BanMan = BanMan::load(&stored.items, now);
            Ok((bans, Carried { version: stored.version, trailer: stored.trailer }))
        },
        Err(e) => Err(e),
    }
}

/// The stored form of the address store, with what it carries along.
pub fn encode_addresses(store: &AddrMan, extra: &Carried) -> (r: Result<Vec<u8>, NetError>)
    requires
        store.inv(),
    ensures
        match r {
            Ok(bytes) => extra.version > 0 && bytes@ == file_bytes(
                ADDR_MAGIC,
                extra.version,
                store@.snapshot(),
                extra.trailer@,
            ),
            Err(e) => e == NetError::PersistenceError && extra.version == 0,
        },
{
    let items: Vec<StoredAddress> = store.snapshot();
    proof {
        crate::addrman::lemma_snapshot_len(store@);
    }
    encode_file(ADDR_MAGIC, extra.version, &items, &extra.trailer)
}

/// The address store under `salt` that `bytes` are the stored form of,
/// and what it carried along.
pub fn decode_addresses(bytes: &Vec<u8>, salt: u64, seed: u64) -> (r: Result<
    (AddrMan, Carried),
    NetError,
>)
    ensures
        match (r, file_parsed::<StoredAddress>(ADDR_MAGIC, bytes@)) {
            (Ok((store, extra)), Some(parsed)) => store.inv() && extra.version == parsed.0
                && store@ == blank(salt, seed).after_restore_all(parsed.1) && extra.trailer@ == parsed.2,
            (Err(e), None) => e == NetError::PersistenceError,
            _ => false,
        },
{
    match decode_file::<StoredAddress>(ADDR_MAGIC, bytes) {
        Ok(stored) => {
            let store: AddrMan = AddrMan::restore(salt, seed, &stored.items);
            Ok((store, Carried { version: stored.version, trailer: stored.trailer }))
        },
        Err(e) => Err(e),
    }
}

} // verus!
