//! Messages of the domain name system.
use dataview::DataView;
use vstd::prelude::*;

verus! {

/// `.`
pub const DOT: u8 = 0x2e;

/// Bytes of the header of a message.
pub const DNS_SIZE: usize = 12;

/// Bytes of a question behind the name.
pub const QUESTION_SIZE: usize = 4;

/// Bytes of an answer between the name and the data.
pub const DATA_SIZE: usize = 10;

/// The longest name that is made out.
pub const MAX_NAME: usize = 128;

/// Type of an answer that holds an address.
pub const ARECORD: u16 = 1;

/// Reads two bytes of a message with [`DataView::get`].
///
/// What is read are the bytes at the offset, which must lie within the message.
#[verifier::external_body]
fn read_field(bytes: &[u8], offset: usize) -> (r: [u8; 2])
    requires
        offset + 2 <= bytes@.len(),
    ensures
        r@ == bytes@.subrange(offset as int, offset + 2),
{
    *DataView::from(bytes).get::<[u8; 2]>(offset)
}

/// Writes two bytes to a message with [`DataView::write`].
///
/// The bytes at the offset, which must lie within the message, are replaced; the
/// others stay as they are.
#[verifier::external_body]
fn write_field(bytes: &mut [u8], offset: usize, value: &[u8; 2])
    requires
        offset + 2 <= old(bytes)@.len(),
    ensures
        final(bytes)@ == old(bytes)@.update(offset as int, value@[0]).update(offset + 1, value@[1]),
{
    DataView::from_mut(bytes).write(offset, value);
}

/// The number that two bytes stand for, the higher one first.
pub open spec fn be_u16(bytes: Seq<u8>) -> u16 {
    (bytes[0] * 0x100 + bytes[1]) as u16
}

fn from_be(bytes: &[u8; 2]) -> (r: u16)
    ensures
        r == be_u16(bytes@),
{
    (bytes[0] as u16) * 0x100 + bytes[1] as u16
}

fn to_be(n: u16) -> (r: [u8; 2])
    ensures
        be_u16(r@) == n,
        r@ == seq![(n / 0x100) as u8, (n % 0x100) as u8],
{
    let r: [u8; 2] = [(n / 0x100) as u8, (n % 0x100) as u8];
    assert(r@ =~= seq![(n / 0x100) as u8, (n % 0x100) as u8]);
    r
}

/// The header of a message.
#[derive(Debug, Clone, Copy, PartialEq, Eq)]
pub struct Dns {
    /// Request ID
    pub id: [u8; 2],
    /// Flags, from the highest bit on: query or response (1 bit), query type (4
    /// bits), authoritative answer, truncated, recursion desired (1 bit each);
    /// recursion available (1 bit), reserved (3 bits), response code (4 bits).
    pub flags: [u8; 2],
    /// Number of question entries
    pub qdcount: [u8; 2],
    /// Number of resource records in answer section
    pub ancount: [u8; 2],
    /// Number of name server resource records in authority section
    pub nscount: [u8; 2],
    /// Number of resource records in additional section
    pub arcount: [u8; 2],
}

/// What a [`Dns`] header says.
pub struct DnsView {
    pub id: u16,
    pub qr: bool,
    pub opcode: int,
    pub aa: bool,
    pub tc: bool,
    pub rd: bool,
    pub ra: bool,
    pub z: int,
    pub rcode: int,
    pub qdcount: u16,
    pub ancount: u16,
    pub nscount: u16,
    pub arcount: u16,
}

/// A part of a header, with what it is to be.
pub enum DnsField {
    Id(u16),
    Qr(bool),
    Opcode(u8),
    Aa(bool),
    Rd(bool),
    Ra(bool),
    Rcode(u8),
    Questions(u16),
    Answers(u16),
}

impl DnsView {
    /// With one part changed.
    pub open spec fn changed(self, field: DnsField) -> Self {
        match field {
            DnsField::Id(id) => DnsView { id, ..self },
            DnsField::Qr(qr) => DnsView { qr, ..self },
            DnsField::Opcode(opcode) => DnsView { opcode: opcode as int, ..self },
            DnsField::Aa(aa) => DnsView { aa, ..self },
            DnsField::Rd(rd) => DnsView { rd, ..self },
            DnsField::Ra(ra) => DnsView { ra, ..self },
            DnsField::Rcode(rcode) => DnsView { rcode: rcode as int, ..self },
            DnsField::Questions(qdcount) => DnsView { qdcount, ..self },
            DnsField::Answers(ancount) => DnsView { ancount, ..self },
        }
    }
}

/// The bit of a byte that has the value `value`.
pub open spec fn bit(byte: u8, value: int) -> bool {
    byte as int / value % 2 == 1
}

/// The byte with that bit set or not.
pub open spec fn with_bit(byte: u8, value: int, on: bool) -> int {
    if bit(byte, value) == on {
        byte as int
    } else if on {
        byte + value
    } else {
        byte - value
    }
}

impl Dns {
    pub open spec fn view(&self) -> DnsView {
        DnsView {
            id: be_u16(self.id@),
            qr: bit(self.flags@[0], 0x80),
            opcode: self.flags@[0] as int / 8 % 16,
            aa: bit(self.flags@[0], 0x04),
            tc: bit(self.flags@[0], 0x02),
            rd: bit(self.flags@[0], 0x01),
            ra: bit(self.flags@[1], 0x80),
            z: self.flags@[1] as int / 0x10 % 8,
            rcode: self.flags@[1] as int % 0x10,
            qdcount: be_u16(self.qdcount@),
            ancount: be_u16(self.ancount@),
            nscount: be_u16(self.nscount@),
            arcount: be_u16(self.arcount@),
        }
    }

    /// A header of zeros.
    pub fn zeroed() -> (r: Self)
        ensures
            r.id@ == seq![0u8, 0u8],
            r.flags@ == seq![0u8, 0u8],
            r.qdcount@ == seq![0u8, 0u8],
            r.ancount@ == seq![0u8, 0u8],
            r.nscount@ == seq![0u8, 0u8],
            r.arcount@ == seq![0u8, 0u8],
    {
        let none: [u8; 2] = [0, 0];
        assert(none@ =~= seq![0u8, 0u8]);
        Dns { id: none, flags: none, qdcount: none, ancount: none, nscount: none, arcount: none }
    }

    /// The bytes of the header.
    pub open spec fn bytes(self) -> Seq<u8> {
        self.id@ + self.flags@ + self.qdcount@ + self.ancount@ + self.nscount@ + self.arcount@
    }

    /// Reads the header of a message.
    pub fn read(message: &[u8]) -> (r: Self)
        requires
            message@.len() >= DNS_SIZE,
        ensures
            r.bytes() == message@.take(DNS_SIZE as int),
            r.id@ == message@.subrange(0, 2),
            r.flags@ == message@.subrange(2, 4),
            r.qdcount@ == message@.subrange(4, 6),
            r.ancount@ == message@.subrange(6, 8),
    {
        let r = Dns {
            id: read_field(message, 0),
            flags: read_field(message, 2),
            qdcount: read_field(message, 4),
            ancount: read_field(message, 6),
            nscount: read_field(message, 8),
            arcount: read_field(message, 10),
        };
        assert(r.bytes() =~= message@.take(DNS_SIZE as int));
        r
    }

    /// Writes the header to the beginning of a message.
    pub fn write(&self, message: &mut [u8])
        requires
            old(message)@.len() >= DNS_SIZE,
        ensures
            final(message)@ == self.bytes() + old(message)@.skip(DNS_SIZE as int),
    {
        write_field(message, 0, &self.id);
        write_field(message, 2, &self.flags);
        write_field(message, 4, &self.qdcount);
        write_field(message, 6, &self.ancount);
        write_field(message, 8, &self.nscount);
        write_field(message, 10, &self.arcount);
        assert(message@ =~= self.bytes() + old(message)@.skip(DNS_SIZE as int));
    }

    /// Returns the request ID.
    pub fn id(&self) -> (r: u16)
        ensures
            r == self@.id,
    {
        from_be(&self.id)
    }

    /// Sets the request ID.
    pub fn set_id(&mut self, id: u16)
        ensures
            final(self)@ == (DnsView { id, ..old(self)@ }),
            final(self)@ == old(self)@.changed(DnsField::Id(id)),
            *final(self) == (Dns { id: final(self).id, ..*old(self) }),
            final(self).id@ == seq![(id / 0x100) as u8, (id % 0x100) as u8],
    {
        self.id = to_be(id);
    }

    /// Whether the message is a response.
    pub fn qr(&self) -> (r: bool)
        ensures
            r == self@.qr,
    {
        self.flags[0] / 0x80 % 2 == 1
    }

    /// Sets whether the message is a response.
    pub fn set_qr(&mut self, qr: bool)
        ensures
            final(self)@ == (DnsView { qr, ..old(self)@ }),
            final(self)@ == old(self)@.changed(DnsField::Qr(qr)),
    {
        let byte: u8 = self.flags[0];
        if (byte / 0x80 % 2 == 1) != qr {
            let changed: u8 = if qr {
                byte + 0x80
            } else {
                byte - 0x80
            };
            proof {
                lemma_top_bit(byte, changed);
            }
            self.flags[0] = changed;
        }
    }

    /// Returns the query type.
    pub fn opcode(&self) -> (r: u8)
        ensures
            r == self@.opcode,
    {
        self.flags[0] / 8 % 16
    }

    /// Sets the query type.
    pub fn set_opcode(&mut self, opcode: u8)
        requires
            opcode < 16,
        ensures
            final(self)@ == (DnsView { opcode: opcode as int, ..old(self)@ }),
            final(self)@ == old(self)@.changed(DnsField::Opcode(opcode)),
    {
        let byte: u8 = self.flags[0];
        let before: u8 = byte / 8 % 16;
        let changed: u8 = (byte - before * 8) + opcode * 8;
        proof {
            lemma_opcode(byte, opcode, changed);
        }
        self.flags[0] = changed;
    }

    /// Whether the answer is authoritative.
    pub fn aa(&self) -> (r: bool)
        ensures
            r == self@.aa,
    {
        self.flags[0] / 4 % 2 == 1
    }

    /// Sets whether the answer is authoritative.
    pub fn set_aa(&mut self, aa: bool)
        ensures
            final(self)@ == (DnsView { aa, ..old(self)@ }),
            final(self)@ == old(self)@.changed(DnsField::Aa(aa)),
    {
        let byte: u8 = self.flags[0];
        if (byte / 4 % 2 == 1) != aa {
            let changed: u8 = if aa {
                byte + 4
            } else {
                byte - 4
            };
            self.flags[0] = changed;
        }
    }

    /// Whether recursion is desired.
    pub fn rd(&self) -> (r: bool)
        ensures
            r == self@.rd,
    {
        self.flags[0] % 2 == 1
    }

    /// Sets whether recursion is desired.
    pub fn set_rd(&mut self, rd: bool)
        ensures
            final(self)@ == (DnsView { rd, ..old(self)@ }),
            final(self)@ == old(self)@.changed(DnsField::Rd(rd)),
            final(self).flags@ == old(self).flags@.update(
                0,
                with_bit(old(self).flags@[0], 1, rd) as u8,
            ),
            *final(self) == (Dns { flags: final(self).flags, ..*old(self) }),
    {
        let byte: u8 = self.flags[0];
        if (byte % 2 == 1) != rd {
            let changed: u8 = if rd {
                byte + 1
            } else {
                byte - 1
            };
            self.flags[0] = changed;
        }
        assert(self.flags@ =~= old(self).flags@.update(
            0,
            with_bit(old(self).flags@[0], 1, rd) as u8,
        ));
    }

    /// Whether recursion is available.
    pub fn ra(&self) -> (r: bool)
        ensures
            r == self@.ra,
    {
        self.flags[1] / 0x80 % 2 == 1
    }

    /// Sets whether recursion is available.
    pub fn set_ra(&mut self, ra: bool)
        ensures
            final(self)@ == (DnsView { ra, ..old(self)@ }),
            final(self)@ == old(self)@.changed(DnsField::Ra(ra)),
    {
        let byte: u8 = self.flags[1];
        if (byte / 0x80 % 2 == 1) != ra {
            let changed: u8 = if ra {
                byte + 0x80
            } else {
                byte - 0x80
            };
            proof {
                lemma_top_bit(byte, changed);
            }
            self.flags[1] = changed;
        }
    }

    /// Returns the response code.
    pub fn rcode(&self) -> (r: u8)
        ensures
            r == self@.rcode,
    {
        self.flags[1] % 16
    }

    /// Sets the response code.
    pub fn set_rcode(&mut self, rcode: u8)
        requires
            rcode < 16,
        ensures
            final(self)@ == (DnsView { rcode: rcode as int, ..old(self)@ }),
            final(self)@ == old(self)@.changed(DnsField::Rcode(rcode)),
    {
        let byte: u8 = self.flags[1];
        self.flags[1] = (byte - byte % 16) + rcode;
    }

    /// Returns the number of question entries.
    pub fn qdcount(&self) -> (r: u16)
        ensures
            r == self@.qdcount,
    {
        from_be(&self.qdcount)
    }

    /// Sets the number of question entries.
    pub fn set_qdcount(&mut self, qdcount: u16)
        ensures
            final(self)@ == (DnsView { qdcount, ..old(self)@ }),
            final(self)@ == old(self)@.changed(DnsField::Questions(qdcount)),
            *final(self) == (Dns { qdcount: final(self).qdcount, ..*old(self) }),
            final(self).qdcount@ == seq![(qdcount / 0x100) as u8, (qdcount % 0x100) as u8],
    {
        self.qdcount = to_be(qdcount);
    }

    /// Returns the number of answers.
    pub fn ancount(&self) -> (r: u16)
        ensures
            r == self@.ancount,
    {
        from_be(&self.ancount)
    }

    /// Sets the number of answers.
    pub fn set_ancount(&mut self, ancount: u16)
        ensures
            final(self)@ == (DnsView { ancount, ..old(self)@ }),
            final(self)@ == old(self)@.changed(DnsField::Answers(ancount)),
    {
        self.ancount = to_be(ancount);
    }
}

/// Turning the highest bit of a byte leaves the others alone.
proof fn lemma_top_bit(byte: u8, changed: u8)
    requires
        changed == byte + 0x80 || changed == byte - 0x80,
    ensures
        bit(changed, 0x80) != bit(byte, 0x80),
        changed as int / 8 % 16 == byte as int / 8 % 16,
        changed as int / 0x10 % 8 == byte as int / 0x10 % 8,
        changed as int % 16 == byte as int % 16,
        bit(changed, 0x04) == bit(byte, 0x04),
        bit(changed, 0x02) == bit(byte, 0x02),
        bit(changed, 0x01) == bit(byte, 0x01),
{
    if byte < changed {
        lemma_flags_kept(byte as int);
        lemma_counts_kept(byte as int);
    } else {
        lemma_flags_kept(changed as int);
        lemma_counts_kept(changed as int);
    }
}

proof fn lemma_flags_kept(small: int)
    requires
        0 <= small < 0x80,
    ensures
        (small + 0x80) / 0x80 % 2 == 1,
        small / 0x80 % 2 == 0,
        (small + 0x80) / 4 % 2 == small / 4 % 2,
        (small + 0x80) / 2 % 2 == small / 2 % 2,
        (small + 0x80) / 1 % 2 == small / 1 % 2,
{
    assert((small + 0x80) / 4 == small / 4 + 32);
    assert((small + 0x80) / 2 == small / 2 + 64);
}

proof fn lemma_counts_kept(small: int)
    requires
        0 <= small < 0x80,
    ensures
        (small + 0x80) / 8 % 16 == small / 8 % 16,
        (small + 0x80) / 0x10 % 8 == small / 0x10 % 8,
        (small + 0x80) % 16 == small % 16,
{
    assert((small + 0x80) / 8 == small / 8 + 16);
    assert((small + 0x80) / 0x10 == small / 0x10 + 8);
}

/// Setting the query type leaves the other flags alone.
proof fn lemma_opcode(byte: u8, opcode: u8, changed: u8)
    requires
        opcode < 16,
        changed == (byte - (byte / 8 % 16) * 8) + opcode * 8,
    ensures
        changed as int / 8 % 16 == opcode,
        bit(changed, 0x80) == bit(byte, 0x80),
        bit(changed, 0x04) == bit(byte, 0x04),
        bit(changed, 0x02) == bit(byte, 0x02),
        bit(changed, 0x01) == bit(byte, 0x01),
{
    let high = byte as int / 0x80;
    let low = byte as int % 8;
    assert(byte == high * 0x80 + (byte as int / 8 % 16) * 8 + low);
    assert(changed == high * 0x80 + opcode * 8 + low);
}

/// How many bytes there are from `i` on until a dot or the end.
pub open spec fn label_len(q: Seq<u8>, i: int) -> nat
    decreases q.len() - i,
{
    if i >= q.len() || q[i] == DOT {
        0
    } else {
        1 + label_len(q, i + 1)
    }
}

/// The form that a name has in a message, from `i` on: the length of each label
/// and the label, and a zero at the end. A label that is empty ends the name.
pub open spec fn encoded_from(q: Seq<u8>, i: int) -> Seq<u8>
    decreases q.len() - i,
{
    let n = label_len(q, i);
    if i >= q.len() || n == 0 {
        seq![0u8]
    } else {
        seq![n as u8] + q.subrange(i, i + n) + if i + n >= q.len() {
            seq![0u8]
        } else {
            encoded_from(q, i + n + 1)
        }
    }
}

/// Whether no label of a name is too long, from `i` on until an empty one.
pub open spec fn labels_fit(q: Seq<u8>, i: int) -> bool
    decreases q.len() - i,
{
    let n = label_len(q, i);
    i >= q.len() || n == 0 || (n <= 255 && (i + n >= q.len() || labels_fit(q, i + n + 1)))
}

/// Puts a name into the form that it has in a message.
pub fn encode_qname(qname: &[u8]) -> (r: Vec<u8>)
    requires
        labels_fit(qname@, 0),
    ensures
        r@ == encoded_from(qname@, 0),
{
    let mut out: Vec<u8> = Vec::new();
    let mut i: usize = 0;
    let ghost all = encoded_from(qname@, 0);
    assert(out@ + all =~= all);
    while i < qname.len()
        invariant
            i <= qname@.len(),
            labels_fit(qname@, i as int),
            all == encoded_from(qname@, 0),
            all == out@ + encoded_from(qname@, i as int),
        decreases qname@.len() - i,
    {
        let ghost before = out@;
        let mut n: usize = 0;
        while n < qname.len() - i && qname[i + n] != DOT
            invariant
                i <= qname.len(),
                n <= qname.len() - i,
                label_len(qname@, i as int) == n + label_len(qname@, i + n),
            decreases qname@.len() - i - n,
        {
            n = n + 1;
        }
        assert(label_len(qname@, i as int) == n);
        if n == 0 {
            out.push(0);
            assert(out@ =~= all);
            return out;
        }
        out.push(n as u8);
        let mut k: usize = 0;
        while k < n
            invariant
                i + n <= qname.len(),
                k <= n <= 255,
                out@ == before + seq![n as u8] + qname@.subrange(i as int, i + k),
            decreases n - k,
        {
            out.push(qname[i + k]);
            k = k + 1;
            assert(out@ =~= before + seq![n as u8] + qname@.subrange(i as int, i + k));
        }
        i = i + n;
        if i >= qname.len() {
            out.push(0);
            assert(out@ =~= all);
            return out;
        }
        // skip the dot
        i = i + 1;
        assert(out@ + encoded_from(qname@, i as int) =~= all);
    }
    out.push(0);
    assert(out@ =~= all);
    out
}

/// The name in a message from `i` on, together with what has been made out of it,
/// and where it ends. There is none if it is too long or goes beyond the message.
pub open spec fn name_from(m: Seq<u8>, i: int, name: Seq<u8>) -> Option<(Seq<u8>, int)>
    decreases m.len() - i,
{
    if i < 0 || i >= m.len() {
        None
    } else if m[i] == 0 {
        Some((name, i + 1))
    } else {
        let dotted = if name.len() > 0 {
            name.push(DOT)
        } else {
            name
        };
        if i + 1 + m[i] > m.len() || dotted.len() + m[i] > MAX_NAME {
            None
        } else {
            name_from(m, i + 1 + m[i], dotted + m.subrange(i + 1, i + 1 + m[i]))
        }
    }
}

/// Makes out a name in a message, and where it ends.
pub fn decode_qname(message: &[u8], start: usize) -> (r: Option<(Vec<u8>, usize)>)
    ensures
        match name_from(message@, start as int, seq![]) {
            Some((name, end)) => r matches Some(found) && found.0@ == name && found.1 == end && end
                <= message@.len() && start < end,
            None => r is None,
        },
{
    let mut name: Vec<u8> = Vec::new();
    let mut i: usize = start;
    assert(name@ =~= seq![]);
    while i < message.len() && message[i] != 0
        invariant
            start <= i,
            name@.len() <= MAX_NAME,
            name_from(message@, start as int, seq![]) == name_from(message@, i as int, name@),
        decreases message@.len() - i,
    {
        let n: usize = message[i] as usize;
        let dots: usize = if name.len() > 0 {
            1
        } else {
            0
        };
        if message.len() - i - 1 < n || name.len() + dots + n > MAX_NAME {
            return None;
        }
        if name.len() > 0 {
            name.push(DOT);
        }
        let ghost dotted = name@;
        let mut k: usize = 0;
        while k < n
            invariant
                i + 1 + n <= message.len(),
                k <= n,
                name@ == dotted + message@.subrange(i + 1, i + 1 + k),
            decreases n - k,
        {
            name.push(message[i + 1 + k]);
            k = k + 1;
            assert(name@ =~= dotted + message@.subrange(i + 1, i + 1 + k));
        }
        assert(message@.subrange(i + 1, i + 1 + n) =~= message@.subrange(
            i + 1,
            i + 1 + message@[i as int],
        ));
        i = i + 1 + n;
    }
    if i < message.len() {
        Some((name, i + 1))
    } else {
        None
    }
}

/// Labels with dots between them.
pub open spec fn joined(labels: Seq<Seq<u8>>) -> Seq<u8>
    decreases labels.len(),
{
    if labels.len() == 0 {
        seq![]
    } else if labels.len() == 1 {
        labels[0]
    } else {
        labels[0] + seq![DOT] + joined(labels.skip(1))
    }
}

/// Labels as they are in a message.
pub open spec fn on_wire(labels: Seq<Seq<u8>>) -> Seq<u8>
    decreases labels.len(),
{
    if labels.len() == 0 {
        seq![0u8]
    } else {
        seq![labels[0].len() as u8] + labels[0] + on_wire(labels.skip(1))
    }
}

/// Whether labels can make up a name: none is empty, too long or has a dot in it.
pub open spec fn good_labels(labels: Seq<Seq<u8>>) -> bool {
    forall|k: int|
        0 <= k < labels.len() ==> {
            &&& 0 < (#[trigger] labels[k]).len() <= 255
            &&& forall|j: int| 0 <= j < labels[k].len() ==> #[trigger] labels[k][j] != DOT
        }
}

proof fn lemma_label_at(q: Seq<u8>, i: int, label: Seq<u8>)
    requires
        0 <= i,
        i + label.len() <= q.len(),
        q.subrange(i, i + label.len()) == label,
        forall|j: int| 0 <= j < label.len() ==> #[trigger] label[j] != DOT,
        i + label.len() == q.len() || q[i + label.len()] == DOT,
    ensures
        label_len(q, i) == label.len(),
    decreases label.len(),
{
    if label.len() > 0 {
        assert(q[i] == q.subrange(i, i + label.len())[0]);
        let rest = label.skip(1);
        assert(q.subrange(i + 1, i + 1 + rest.len()) =~= rest) by {
            assert forall|j: int| 0 <= j < rest.len() implies q.subrange(
                i + 1,
                i + 1 + rest.len(),
            )[j] == rest[j] by {
                assert(label[j + 1] == q.subrange(i, i + label.len())[j + 1]);
            }
        }
        assert forall|j: int| 0 <= j < rest.len() implies #[trigger] rest[j] != DOT by {
            assert(rest[j] == label[j + 1]);
        }
        lemma_label_at(q, i + 1, rest);
    }
}

/// What a name is put into.
proof fn lemma_encoded(q: Seq<u8>, i: int, labels: Seq<Seq<u8>>)
    requires
        good_labels(labels),
        labels.len() > 0,
        0 <= i <= q.len(),
        q.skip(i) == joined(labels),
    ensures
        encoded_from(q, i) == on_wire(labels),
    decreases labels.len(),
{
    let label = labels[0];
    let n = label.len() as int;
    assert(0 < labels[0].len() <= 255);
    let rest = joined(labels);
    assert(rest.len() == q.len() - i);
    assert(rest.subrange(0, n) =~= label);
    assert(q.subrange(i, i + n) =~= label) by {
        assert forall|j: int| 0 <= j < n implies q.subrange(i, i + n)[j] == label[j] by {
            assert(q.skip(i)[j] == q[i + j]);
            assert(rest[j] == rest.subrange(0, n)[j]);
        }
    }
    if labels.len() == 1 {
        lemma_label_at(q, i, label);
        assert(labels.skip(1) =~= seq![]);
        assert(on_wire(labels.skip(1)) == seq![0u8]);
        assert(encoded_from(q, i) == seq![n as u8] + q.subrange(i, i + n) + seq![0u8]);
        assert(on_wire(labels) == seq![n as u8] + label + seq![0u8]);
    } else {
        assert(q[i + n] == q.skip(i)[n]);
        lemma_label_at(q, i, label);
        let more = labels.skip(1);
        assert(q.skip(i + n + 1) =~= joined(more)) by {
            assert forall|j: int| 0 <= j < joined(more).len() implies q.skip(i + n + 1)[j]
                == joined(more)[j] by {
                assert(q.skip(i)[n + 1 + j] == q[i + n + 1 + j]);
                assert(rest[n + 1 + j] == joined(more)[j]);
            }
        }
        assert forall|k: int| 0 <= k < more.len() implies {
            &&& 0 < (#[trigger] more[k]).len() <= 255
            &&& forall|j: int| 0 <= j < more[k].len() ==> #[trigger] more[k][j] != DOT
        } by {
            assert(more[k] == labels[k + 1]);
        }
        lemma_encoded(q, i + n + 1, more);
    }
}

/// Whether bytes stand in a message from `i` on.
pub open spec fn stands_at(m: Seq<u8>, i: int, part: Seq<u8>) -> bool {
    &&& 0 <= i
    &&& i + part.len() <= m.len()
    &&& m.subrange(i, i + part.len()) == part
}

/// What is made out of it.
proof fn lemma_decoded(m: Seq<u8>, i: int, labels: Seq<Seq<u8>>, name: Seq<u8>)
    requires
        good_labels(labels),
        stands_at(m, i, on_wire(labels)),
        labels.len() > 0 ==> name.len() + joined(labels).len() + 1 <= MAX_NAME,
    ensures
        name_from(m, i, name) == Some(
            (
                if labels.len() == 0 {
                    name
                } else if name.len() > 0 {
                    name.push(DOT) + joined(labels)
                } else {
                    joined(labels)
                },
                i + on_wire(labels).len(),
            ),
        ),
    decreases labels.len(),
{
    let wire = on_wire(labels);
    assert forall|j: int| 0 <= j < wire.len() implies m[i + j] == #[trigger] wire[j] by {
        assert(m.subrange(i, i + wire.len())[j] == wire[j]);
    }
    if labels.len() == 0 {
        assert(m[i + 0] == wire[0]);
    } else {
        let label = labels[0];
        let n = label.len() as int;
        assert(0 < labels[0].len() <= 255);
        let more = labels.skip(1);
        assert(m[i + 0] == wire[0]);
        assert(m[i] == n);
        lemma_wire_len(more);
        assert(m.subrange(i + 1, i + 1 + n) =~= label) by {
            assert forall|j: int| 0 <= j < n implies m.subrange(i + 1, i + 1 + n)[j] == label[j] by {
                assert(m[i + (1 + j)] == wire[1 + j]);
                assert(wire[1 + j] == label[j]);
            }
        }
        let tail = on_wire(more);
        assert(m.subrange(i + 1 + n, i + 1 + n + tail.len()) =~= tail) by {
            assert forall|j: int| 0 <= j < tail.len() implies m.subrange(
                i + 1 + n,
                i + 1 + n + tail.len(),
            )[j] == tail[j] by {
                assert(m[i + (1 + n + j)] == wire[1 + n + j]);
                assert(wire[1 + n + j] == tail[j]);
            }
        }
        assert forall|k: int| 0 <= k < more.len() implies {
            &&& 0 < (#[trigger] more[k]).len() <= 255
            &&& forall|j: int| 0 <= j < more[k].len() ==> #[trigger] more[k][j] != DOT
        } by {
            assert(more[k] == labels[k + 1]);
        }
        let dotted = if name.len() > 0 {
            name.push(DOT)
        } else {
            name
        };
        let next = dotted + label;
        if labels.len() == 1 {
            assert(more =~= seq![]);
            lemma_decoded(m, i + 1 + n, more, next);
            assert(next =~= if name.len() > 0 {
                name.push(DOT) + joined(labels)
            } else {
                joined(labels)
            });
        } else {
            assert(joined(labels).len() == n + 1 + joined(more).len());
            lemma_decoded(m, i + 1 + n, more, next);
            assert(next.push(DOT) + joined(more) =~= if name.len() > 0 {
                name.push(DOT) + joined(labels)
            } else {
                joined(labels)
            });
        }
        assert(m.subrange(i + 1, i + 1 + m[i]) =~= label);
    }
}

proof fn lemma_wire_len(labels: Seq<Seq<u8>>)
    ensures
        on_wire(labels).len() >= 1,
    decreases labels.len(),
{
    if labels.len() > 0 {
        lemma_wire_len(labels.skip(1));
    }
}

/// A name that is put into the form it has in a message is made out again.
pub proof fn law_qname_round_trip(labels: Seq<Seq<u8>>)
    requires
        good_labels(labels),
        labels.len() > 0,
        joined(labels).len() < MAX_NAME,
    ensures
        name_from(encoded_from(joined(labels), 0), 0, seq![]) == Some(
            (joined(labels), encoded_from(joined(labels), 0).len() as int),
        ),
{
    let q = joined(labels);
    assert(q.skip(0) =~= q);
    lemma_encoded(q, 0, labels);
    let m = encoded_from(q, 0);
    assert(m.subrange(0, m.len() as int) =~= m);
    lemma_decoded(m, 0, labels, seq![]);
}

/// The form that a name has in a message: each label behind its length, and a zero at the
/// end.
pub proof fn law_qname_on_wire(labels: Seq<Seq<u8>>)
    requires
        good_labels(labels),
        labels.len() > 0,
    ensures
        encoded_from(joined(labels), 0) == on_wire(labels),
{
    assert(joined(labels).skip(0) =~= joined(labels));
    lemma_encoded(joined(labels), 0, labels);
}

/// The bytes of the header of a request with an ID.
pub open spec fn request_header(id: u16) -> Seq<u8> {
    seq![
        (id / 0x100) as u8,
        (id % 0x100) as u8,
        1u8,
        0u8,
        0u8,
        1u8,
        0u8,
        0u8,
        0u8,
        0u8,
        0u8,
        0u8,
    ]
}

/// Makes a request for the address that belongs to a name. Recursion is desired.
pub fn dns_req(id: u16, qname: &[u8]) -> (r: Vec<u8>)
    requires
        labels_fit(qname@, 0),
    ensures
        r@ == request_header(id) + encoded_from(qname@, 0) + seq![0u8, 1u8, 0u8, 1u8],
        r@ == request(id, qname@),
{
    let mut hdr = Dns::zeroed();
    hdr.set_id(id);
    hdr.set_rd(true);
    hdr.set_qdcount(1);
    let mut out: Vec<u8> = Vec::new();
    while out.len() < DNS_SIZE
        invariant
            out@.len() <= DNS_SIZE,
        decreases DNS_SIZE - out@.len(),
    {
        out.push(0);
    }
    hdr.write(out.as_mut_slice());
    proof {
        assert(out@ =~= request_header(id)) by {
            assert(hdr.bytes() =~= request_header(id));
        }
    }
    let mut name: Vec<u8> = encode_qname(qname);
    out.append(&mut name);
    let qtype: [u8; 2] = to_be(1);
    let qclass: [u8; 2] = to_be(1);
    out.push(qtype[0]);
    out.push(qtype[1]);
    out.push(qclass[0]);
    out.push(qclass[1]);
    assert(out@ =~= request_header(id) + encoded_from(qname@, 0) + seq![0u8, 1u8, 0u8, 1u8]);
    out
}

/// The bytes of a request for the address that belongs to a name.
pub open spec fn request(id: u16, qname: Seq<u8>) -> Seq<u8> {
    request_header(id) + encoded_from(qname, 0) + seq![0u8, 1u8, 0u8, 1u8]
}

/// A server that reads a request finds its ID, that it is a query which asks for recursion,
/// and one question and nothing else: for an address, type 1, of class 1, that belongs to
/// the name.
pub proof fn law_request_read(id: u16, labels: Seq<Seq<u8>>)
    requires
        good_labels(labels),
        labels.len() > 0,
        joined(labels).len() < MAX_NAME,
    ensures
        ({
            let m = request(id, joined(labels));
            let n = m.len() as int;
            &&& n >= 16
            &&& m[0] * 0x100 + m[1] == id
            &&& m[2] == 1
            &&& m[3] == 0
            &&& m[4] * 0x100 + m[5] == 1
            &&& m[6] * 0x100 + m[7] == 0
            &&& m[8] * 0x100 + m[9] == 0
            &&& m[10] * 0x100 + m[11] == 0
            &&& name_from(m, 12, seq![]) == Some((joined(labels), n - 4))
            &&& m[n - 4] == 0 && m[n - 3] == 1
            &&& m[n - 2] == 0 && m[n - 1] == 1
            &&& questions_end(m, 12, 1) == Some(n)
        }),
{
    let q = joined(labels);
    let wire = on_wire(labels);
    let m = request(id, q);
    law_qname_on_wire(labels);
    lemma_wire_len(labels);
    assert(m.subrange(12, (12 + wire.len()) as int) =~= wire);
    lemma_decoded(m, 12, labels, seq![]);
    assert(questions_end(m, m.len() as int, 0) == Some(m.len() as int));
}

/// An answer as it stands in a reply.
pub struct Record {
    /// The labels of its name. Without, the name is the one that the question has, and the
    /// answer points at it.
    pub name: Option<Seq<Seq<u8>>>,
    /// What it holds.
    pub ty: u16,
    /// Its class and how long it is good for.
    pub class_and_time: Seq<u8>,
    pub data: Seq<u8>,
}

/// Two bytes of a number, the higher one first.
pub open spec fn two_bytes(n: nat) -> Seq<u8> {
    seq![(n / 0x100) as u8, (n % 0x100) as u8]
}

/// Whether an answer can stand in a reply.
pub open spec fn record_ok(r: Record) -> bool {
    &&& r.class_and_time.len() == 6
    &&& r.data.len() <= 0xffff
    &&& r.name matches Some(labels) ==> {
        &&& good_labels(labels)
        &&& labels.len() > 0
        &&& labels[0].len() <= 63
        &&& joined(labels).len() < MAX_NAME
    }
}

/// The name of an answer in a reply.
pub open spec fn record_name(r: Record) -> Seq<u8> {
    match r.name {
        Some(labels) => on_wire(labels),
        None => seq![0xc0u8, 12u8],
    }
}

/// The bytes of an answer in a reply.
pub open spec fn record_bytes(r: Record) -> Seq<u8> {
    record_name(r) + two_bytes(r.ty as nat) + r.class_and_time + two_bytes(r.data.len()) + r.data
}

/// The bytes of the first `n` answers in a reply.
pub open spec fn records_bytes(records: Seq<Record>, n: nat) -> Seq<u8>
    decreases n,
{
    if n == 0 {
        seq![]
    } else {
        records_bytes(records, (n - 1) as nat) + record_bytes(records[n - 1])
    }
}

/// The addresses that the first `n` answers give, where the question has the name `qname`.
pub open spec fn record_answers(records: Seq<Record>, n: nat, qname: Seq<u8>) -> Seq<AnswerView>
    decreases n,
{
    if n == 0 {
        seq![]
    } else {
        let before = record_answers(records, (n - 1) as nat, qname);
        let r = records[n - 1];
        if r.ty == 1 && r.data.len() == 4 {
            before.push(
                AnswerView {
                    name: match r.name {
                        Some(labels) => joined(labels),
                        None => qname,
                    },
                    ip: r.data,
                },
            )
        } else {
            before
        }
    }
}

/// The bytes of a reply to a request for a name, with flags and a code in its header.
pub open spec fn reply(
    id: u16,
    flags: u8,
    code: u8,
    labels: Seq<Seq<u8>>,
    records: Seq<Record>,
) -> Seq<u8> {
    two_bytes(id as nat) + seq![flags, code] + two_bytes(1) + two_bytes(records.len()) + seq![
        0u8,
        0u8,
        0u8,
        0u8,
    ] + on_wire(labels) + seq![0u8, 1u8, 0u8, 1u8] + records_bytes(records, records.len())
}

proof fn lemma_two_bytes(n: nat)
    requires
        n <= 0xffff,
    ensures
        two_bytes(n).len() == 2,
        be_u16(two_bytes(n)) == n,
{
    let hi = (n / 0x100) as u8;
    let lo = (n % 0x100) as u8;
    assert(hi == n / 0x100 && lo == n % 0x100);
    assert(n == (n / 0x100) * 0x100 + n % 0x100);
}

/// Where an answer stands among the answers.
proof fn lemma_record_place(records: Seq<Record>, n: nat, m: nat)
    requires
        n < m <= records.len(),
    ensures
        ({
            let at = records_bytes(records, n).len() as int;
            let part = record_bytes(records[n as int]);
            &&& stands_at(records_bytes(records, m), at, part)
            &&& records_bytes(records, n + 1).len() == at + part.len()
        }),
    decreases m - n,
{
    let at = records_bytes(records, n).len() as int;
    let part = record_bytes(records[n as int]);
    let all = records_bytes(records, m);
    let before = records_bytes(records, (m - 1) as nat);
    if n + 1 < m {
        lemma_record_place(records, n, (m - 1) as nat);
        assert(all.subrange(at, at + part.len()) =~= before.subrange(at, at + part.len()));
    } else {
        assert(all.subrange(at, at + part.len()) =~= part);
    }
}

/// One answer is read at its place.
proof fn lemma_record_read(
    m: Seq<u8>,
    i: int,
    r: Record,
    qlabels: Seq<Seq<u8>>,
    count: nat,
    list: Seq<AnswerView>,
)
    requires
        record_ok(r),
        stands_at(m, i, record_bytes(r)),
        good_labels(qlabels),
        qlabels.len() > 0,
        joined(qlabels).len() < MAX_NAME,
        stands_at(m, 12, on_wire(qlabels)),
        count > 0,
    ensures
        answers_at(m, i, count, list) == answers_at(
            m,
            i + record_bytes(r).len(),
            (count - 1) as nat,
            if r.ty == 1 && r.data.len() == 4 {
                list.push(
                    AnswerView {
                        name: match r.name {
                            Some(labels) => joined(labels),
                            None => joined(qlabels),
                        },
                        ip: r.data,
                    },
                )
            } else {
                list
            },
        ),
{
    let part = record_bytes(r);
    let name = record_name(r);
    let k = name.len() as int;
    let end = i + k;
    assert forall|j: int| 0 <= j < part.len() implies m[i + j] == #[trigger] part[j] by {
        assert(m.subrange(i, i + part.len())[j] == part[j]);
    }
    match r.name {
        Some(labels) => {
            assert(m.subrange(i, i + k) =~= name) by {
                assert forall|j: int| 0 <= j < k implies m.subrange(i, i + k)[j] == name[j] by {
                    assert(m[i + j] == part[j]);
                }
            }
            lemma_wire_len(labels);
            lemma_decoded(m, i, labels, seq![]);
            assert(m[i + 0] == part[0]);
            assert(0 < labels[0].len());
        },
        None => {
            assert(m[i + 0] == part[0] && m[i + 1] == part[1]);
            lemma_decoded(m, 12, qlabels, seq![]);
        },
    }
    lemma_two_bytes(r.ty as nat);
    lemma_two_bytes(r.data.len());
    assert(m.subrange(end, end + 2) =~= two_bytes(r.ty as nat)) by {
        assert(m[i + k] == part[k] && m[i + (k + 1)] == part[k + 1]);
    }
    assert(m.subrange(end + 8, end + 10) =~= two_bytes(r.data.len())) by {
        assert(m[i + (k + 8)] == part[k + 8] && m[i + (k + 9)] == part[k + 9]);
    }
    let data = end + 10;
    assert(m.subrange(data, data + r.data.len()) =~= r.data) by {
        assert forall|j: int| 0 <= j < r.data.len() implies m.subrange(
            data,
            data + r.data.len(),
        )[j] == r.data[j] by {
            assert(m[i + (k + 10 + j)] == part[k + 10 + j]);
        }
    }
}

proof fn lemma_records_read(
    m: Seq<u8>,
    start: int,
    records: Seq<Record>,
    n: nat,
    qlabels: Seq<Seq<u8>>,
)
    requires
        n <= records.len(),
        forall|k: int| 0 <= k < records.len() ==> record_ok(#[trigger] records[k]),
        stands_at(m, start, records_bytes(records, records.len())),
        good_labels(qlabels),
        qlabels.len() > 0,
        joined(qlabels).len() < MAX_NAME,
        stands_at(m, 12, on_wire(qlabels)),
    ensures
        answers_at(
            m,
            start + records_bytes(records, n).len(),
            (records.len() - n) as nat,
            record_answers(records, n, joined(qlabels)),
        ) == Some(record_answers(records, records.len(), joined(qlabels))),
    decreases records.len() - n,
{
    if n < records.len() {
        let all = records_bytes(records, records.len());
        let at = records_bytes(records, n).len() as int;
        let part = record_bytes(records[n as int]);
        lemma_record_place(records, n, records.len());
        assert(m.subrange(start + at, start + at + part.len()) =~= part) by {
            assert forall|j: int| 0 <= j < part.len() implies m.subrange(
                start + at,
                start + at + part.len(),
            )[j] == part[j] by {
                assert(all.subrange(at, at + part.len())[j] == all[at + j]);
                assert(m.subrange(start, start + all.len())[at + j] == m[start + (at + j)]);
            }
        }
        lemma_record_read(
            m,
            start + at,
            records[n as int],
            qlabels,
            (records.len() - n) as nat,
            record_answers(records, n, joined(qlabels)),
        );
        lemma_records_read(m, start, records, n + 1, qlabels);
    }
}

/// A reply to a request for a name gives the addresses that stand in its answers, in their
/// order, each for the name that the answer has or points at; answers of other kinds are
/// passed over. It is of no use if it is not marked as a reply, if it is one to another
/// request, or if the server says that it has failed.
pub proof fn law_reply_read(
    id: u16,
    wanted: u16,
    flags: u8,
    code: u8,
    labels: Seq<Seq<u8>>,
    records: Seq<Record>,
)
    requires
        good_labels(labels),
        labels.len() > 0,
        joined(labels).len() < MAX_NAME,
        records.len() <= 0xffff,
        forall|k: int| 0 <= k < records.len() ==> record_ok(#[trigger] records[k]),
    ensures
        reply_spec(reply(id, flags, code, labels, records), wanted) == (if flags < 0x80 {
            Err::<Seq<AnswerView>, ReplyError>(ReplyError::NotReply)
        } else if id != wanted {
            Err(ReplyError::WrongId(id))
        } else if code as int % 16 != 0 {
            Err(ReplyError::Failed((code as int % 16) as u8))
        } else {
            Ok(record_answers(records, records.len(), joined(labels)))
        }),
{
    let m = reply(id, flags, code, labels, records);
    let wire = on_wire(labels);
    let tail = records_bytes(records, records.len());
    lemma_two_bytes(id as nat);
    lemma_two_bytes(1);
    lemma_two_bytes(records.len());
    lemma_wire_len(labels);
    assert(m.subrange(0, 2) =~= two_bytes(id as nat));
    assert(m[2] == flags && m[3] == code);
    assert(m.subrange(4, 6) =~= two_bytes(1));
    assert(m.subrange(6, 8) =~= two_bytes(records.len()));
    assert(m.subrange(12, (12 + wire.len()) as int) =~= wire);
    lemma_decoded(m, 12, labels, seq![]);
    let start = 12 + wire.len() + 4;
    assert(m.subrange(start as int, (start + tail.len()) as int) =~= tail);
    assert(questions_end(m, start as int, 0) == Some(start as int));
    assert(questions_end(m, 12, 1) == Some(start as int));
    lemma_records_read(m, start as int, records, 0, labels);
    assert(record_answers(records, 0, joined(labels)) =~= seq![]);
}

/// Where the flags of a header stand, each at its bit.
pub proof fn law_header_flags(h: Dns)
    ensures
        h@.id == h.id@[0] * 0x100 + h.id@[1],
        h@.qr <==> h.flags@[0] >= 0x80,
        h@.rd <==> h.flags@[0] % 2 == 1,
        h@.aa <==> h.flags@[0] % 8 >= 4,
        h@.tc <==> h.flags@[0] % 4 >= 2,
        h@.opcode == (h.flags@[0] % 0x80) / 8,
        h@.ra <==> h.flags@[1] >= 0x80,
        h@.z == (h.flags@[1] % 0x80) / 0x10,
        h@.rcode == h.flags@[1] % 0x10,
        h@.qdcount == h.qdcount@[0] * 0x100 + h.qdcount@[1],
        h@.ancount == h.ancount@[0] * 0x100 + h.ancount@[1],
        h@.nscount == h.nscount@[0] * 0x100 + h.nscount@[1],
        h@.arcount == h.arcount@[0] * 0x100 + h.arcount@[1],
{
}

/// The first byte of the flags is made up of its parts.
proof fn lemma_first_flags(h: Dns)
    ensures
        h.flags@[0] == (if h@.qr {
            0x80int
        } else {
            0
        }) + h@.opcode * 8 + (if h@.aa {
            4int
        } else {
            0
        }) + (if h@.tc {
            2int
        } else {
            0
        }) + (if h@.rd {
            1int
        } else {
            0
        }),
        0 <= h@.opcode < 0x10,
{
    let byte = h.flags@[0] as int;
    assert(byte / 2 / 2 == byte / 4 && byte / 4 / 2 == byte / 8 && byte / 8 / 16 == byte / 0x80);
}

/// The second byte of the flags is made up of its parts.
proof fn lemma_second_flags(h: Dns)
    ensures
        h.flags@[1] == (if h@.ra {
            0x80int
        } else {
            0
        }) + h@.z * 0x10 + h@.rcode,
        0 <= h@.z < 8,
        0 <= h@.rcode < 0x10,
{
    let byte = h.flags@[1] as int;
    assert(byte / 0x10 / 8 == byte / 0x80);
}

/// What a change does to the first byte of the flags.
#[verifier::spinoff_prover]
proof fn lemma_first_changed(a: Dns, b: Dns, field: DnsField)
    requires
        b@ == a@.changed(field),
        field matches DnsField::Opcode(opcode) ==> opcode < 0x10,
        field matches DnsField::Rcode(rcode) ==> rcode < 0x10,
    ensures
        ({
            let was = a.flags@[0];
            let now = b.flags@[0];
            match field {
                DnsField::Qr(qr) => now % 0x80 == was % 0x80 && (now >= 0x80 <==> qr),
                DnsField::Opcode(opcode) => now == was / 0x80 * 0x80 + opcode * 8 + was % 8,
                DnsField::Aa(aa) => now / 8 == was / 8 && now % 4 == was % 4 && (now % 8 >= 4
                    <==> aa),
                DnsField::Rd(rd) => now / 2 == was / 2 && (now % 2 == 1 <==> rd),
                _ => now == was,
            }
        }),
{
    lemma_first_flags(a);
    lemma_first_flags(b);
}

/// What a change does to the second byte of the flags.
#[verifier::spinoff_prover]
proof fn lemma_second_changed(a: Dns, b: Dns, field: DnsField)
    requires
        b@ == a@.changed(field),
        field matches DnsField::Opcode(opcode) ==> opcode < 0x10,
        field matches DnsField::Rcode(rcode) ==> rcode < 0x10,
    ensures
        ({
            let was = a.flags@[1];
            let now = b.flags@[1];
            match field {
                DnsField::Ra(ra) => now % 0x80 == was % 0x80 && (now >= 0x80 <==> ra),
                DnsField::Rcode(rcode) => now == was / 0x10 * 0x10 + rcode,
                _ => now == was,
            }
        }),
{
    lemma_second_flags(a);
    lemma_second_flags(b);
}

/// Two bytes tell the number that they stand for, and it tells them.
proof fn lemma_be_parts(a: Seq<u8>, b: Seq<u8>)
    ensures
        be_u16(a) == a[0] * 0x100 + a[1],
        be_u16(a) == be_u16(b) ==> a[0] == b[0] && a[1] == b[1],
        be_u16(b) == b[0] * 0x100 + b[1],
{
}

/// A change to one part of a header changes its bits in the header, and no others.
#[verifier::spinoff_prover]
pub proof fn law_header_changed(a: Dns, b: Dns, field: DnsField)
    requires
        b@ == a@.changed(field),
        field matches DnsField::Opcode(opcode) ==> opcode < 0x10,
        field matches DnsField::Rcode(rcode) ==> rcode < 0x10,
    ensures
        ({
            let was = a.flags@[0];
            let now = b.flags@[0];
            match field {
                DnsField::Qr(qr) => now % 0x80 == was % 0x80 && (now >= 0x80 <==> qr),
                DnsField::Opcode(opcode) => now == was / 0x80 * 0x80 + opcode * 8 + was % 8,
                DnsField::Aa(aa) => now / 8 == was / 8 && now % 4 == was % 4 && (now % 8 >= 4
                    <==> aa),
                DnsField::Rd(rd) => now / 2 == was / 2 && (now % 2 == 1 <==> rd),
                _ => now == was,
            }
        }),
        ({
            let was = a.flags@[1];
            let now = b.flags@[1];
            match field {
                DnsField::Ra(ra) => now % 0x80 == was % 0x80 && (now >= 0x80 <==> ra),
                DnsField::Rcode(rcode) => now == was / 0x10 * 0x10 + rcode,
                _ => now == was,
            }
        }),
        field matches DnsField::Id(id) ==> b.id@[0] * 0x100 + b.id@[1] == id,
        !(field is Id) ==> b.id@[0] == a.id@[0] && b.id@[1] == a.id@[1],
        field matches DnsField::Questions(n) ==> b.qdcount@[0] * 0x100 + b.qdcount@[1] == n,
        !(field is Questions) ==> b.qdcount@[0] == a.qdcount@[0] && b.qdcount@[1]
            == a.qdcount@[1],
        field matches DnsField::Answers(n) ==> b.ancount@[0] * 0x100 + b.ancount@[1] == n,
        !(field is Answers) ==> b.ancount@[0] == a.ancount@[0] && b.ancount@[1]
            == a.ancount@[1],
        b.nscount@[0] == a.nscount@[0] && b.nscount@[1] == a.nscount@[1],
        b.arcount@[0] == a.arcount@[0] && b.arcount@[1] == a.arcount@[1],
{
    lemma_first_changed(a, b, field);
    lemma_second_changed(a, b, field);
    lemma_be_parts(a.id@, b.id@);
    lemma_be_parts(a.qdcount@, b.qdcount@);
    lemma_be_parts(a.ancount@, b.ancount@);
    lemma_be_parts(a.nscount@, b.nscount@);
    lemma_be_parts(a.arcount@, b.arcount@);
}

/// Setting one bit of a byte sets that one and no other.
pub proof fn law_with_bit(byte: u8, on: bool)
    ensures
        0 <= with_bit(byte, 1, on) <= 0xff,
        with_bit(byte, 1, on) % 2 == (if on { 1int } else { 0int }),
        with_bit(byte, 1, on) / 2 == byte as int / 2,
{
}

/// An address that an answer gives for a name.
#[derive(Debug, PartialEq, Eq)]
pub struct Answer {
    pub name: Vec<u8>,
    pub ip: [u8; 4],
}

/// What an [`Answer`] stands for.
pub struct AnswerView {
    pub name: Seq<u8>,
    pub ip: Seq<u8>,
}

/// What a list of answers stands for.
pub open spec fn answers(list: Seq<Answer>) -> Seq<AnswerView> {
    Seq::new(list.len(), |i: int| AnswerView { name: list[i].name@, ip: list[i].ip@ })
}

/// Why a reply is of no use.
#[derive(Debug, Clone, Copy, PartialEq, Eq, Structural)]
pub enum ReplyError {
    /// It goes beyond its end, or holds a name that is too long.
    Malformed,
    /// It is not a reply.
    NotReply,
    /// It is a reply to another request.
    WrongId(u16),
    /// The server has failed, with this code.
    Failed(u8),
}

/// Where `count` questions from `i` on end.
pub open spec fn questions_end(m: Seq<u8>, i: int, count: nat) -> Option<int>
    decreases count,
{
    if count == 0 {
        Some(i)
    } else {
        match name_from(m, i, seq![]) {
            None => None,
            Some((_, end)) => if end + QUESTION_SIZE > m.len() {
                None
            } else {
                questions_end(m, end + QUESTION_SIZE, (count - 1) as nat)
            },
        }
    }
}

/// The name of an answer, and where it ends: it may stand elsewhere in the message.
pub open spec fn answer_name(m: Seq<u8>, i: int) -> Option<(Seq<u8>, int)> {
    if i >= m.len() {
        None
    } else if m[i] > 63 {
        if i + 2 > m.len() {
            None
        } else {
            match name_from(m, m[i + 1] as int, seq![]) {
                None => None,
                Some((name, _)) => Some((name, i + 2)),
            }
        }
    } else {
        name_from(m, i, seq![])
    }
}

/// The addresses in `count` answers from `i` on, together with those before.
pub open spec fn answers_at(m: Seq<u8>, i: int, count: nat, list: Seq<AnswerView>) -> Option<
    Seq<AnswerView>,
>
    decreases count,
{
    if count == 0 {
        Some(list)
    } else {
        match answer_name(m, i) {
            None => None,
            Some((name, end)) => {
                let data = end + DATA_SIZE;
                if data > m.len() {
                    None
                } else {
                    let ty = be_u16(m.subrange(end, end + 2));
                    let len = be_u16(m.subrange(end + 8, end + 10));
                    if data + len > m.len() {
                        None
                    } else {
                        answers_at(
                            m,
                            data + len,
                            (count - 1) as nat,
                            if ty == ARECORD && len == 4 {
                                list.push(AnswerView { name, ip: m.subrange(data, data + 4) })
                            } else {
                                list
                            },
                        )
                    }
                }
            },
        }
    }
}

/// What a reply to the request with an ID says.
pub open spec fn reply_spec(m: Seq<u8>, id: u16) -> Result<Seq<AnswerView>, ReplyError> {
    if m.len() < DNS_SIZE {
        Err(ReplyError::Malformed)
    } else if !bit(m[2], 0x80) {
        Err(ReplyError::NotReply)
    } else if be_u16(m.subrange(0, 2)) != id {
        Err(ReplyError::WrongId(be_u16(m.subrange(0, 2))))
    } else if m[3] as int % 16 != 0 {
        Err(ReplyError::Failed((m[3] as int % 16) as u8))
    } else {
        match questions_end(m, DNS_SIZE as int, be_u16(m.subrange(4, 6)) as nat) {
            None => Err(ReplyError::Malformed),
            Some(i) => match answers_at(m, i, be_u16(m.subrange(6, 8)) as nat, seq![]) {
                None => Err(ReplyError::Malformed),
                Some(list) => Ok(list),
            },
        }
    }
}

/// Makes out the addresses in a reply to the request with an ID.
pub fn dns_rep(rep: &[u8], id: u16) -> (r: Result<Vec<Answer>, ReplyError>)
    ensures
        match reply_spec(rep@, id) {
            Ok(list) => r matches Ok(found) && answers(found@) == list,
            Err(e) => r == Err::<Vec<Answer>, ReplyError>(e),
        },
{
    if rep.len() < DNS_SIZE {
        return Err(ReplyError::Malformed);
    }
    let hdr = Dns::read(rep);
    assert(hdr.flags@[0] == rep@[2] && hdr.flags@[1] == rep@[3]);
    if !hdr.qr() {
        return Err(ReplyError::NotReply);
    }
    if hdr.id() != id {
        return Err(ReplyError::WrongId(hdr.id()));
    }
    if hdr.rcode() != 0 {
        return Err(ReplyError::Failed(hdr.rcode()));
    }
    let start: usize = match skip_questions(rep, hdr.qdcount()) {
        Some(start) => start,
        None => {
            return Err(ReplyError::Malformed);
        },
    };
    match read_answers(rep, start, hdr.ancount()) {
        Some(list) => Ok(list),
        None => Err(ReplyError::Malformed),
    }
}

fn skip_questions(rep: &[u8], count: u16) -> (r: Option<usize>)
    requires
        rep@.len() >= DNS_SIZE,
    ensures
        match questions_end(rep@, DNS_SIZE as int, count as nat) {
            Some(end) => r matches Some(i) && i == end && end <= rep@.len(),
            None => r is None,
        },
{
    let mut i: usize = DNS_SIZE;
    let mut left: u16 = count;
    while left > 0
        invariant
            i <= rep@.len(),
            questions_end(rep@, DNS_SIZE as int, count as nat) == questions_end(
                rep@,
                i as int,
                left as nat,
            ),
        decreases left,
    {
        match decode_qname(rep, i) {
            Some((_, end)) => {
                if rep.len() - end < QUESTION_SIZE {
                    return None;
                }
                i = end + QUESTION_SIZE;
            },
            None => {
                return None;
            },
        }
        left = left - 1;
    }
    Some(i)
}

fn read_answer_name(rep: &[u8], i: usize) -> (r: Option<(Vec<u8>, usize)>)
    requires
        i <= rep@.len(),
    ensures
        match answer_name(rep@, i as int) {
            Some((name, end)) => r matches Some(found) && found.0@ == name && found.1 == end && end
                <= rep@.len() && i < end,
            None => r is None,
        },
{
    if i >= rep.len() {
        return None;
    }
    if rep[i] > 63 {
        // the name stands elsewhere in the message
        if rep.len() - i < 2 {
            return None;
        }
        let off: usize = rep[i + 1] as usize;
        match decode_qname(rep, off) {
            Some((name, _)) => Some((name, i + 2)),
            None => None,
        }
    } else {
        decode_qname(rep, i)
    }
}

fn read_answers(rep: &[u8], start: usize, count: u16) -> (r: Option<Vec<Answer>>)
    requires
        start <= rep@.len(),
    ensures
        match answers_at(rep@, start as int, count as nat, seq![]) {
            Some(list) => r matches Some(found) && answers(found@) == list,
            None => r is None,
        },
{
    let mut list: Vec<Answer> = Vec::new();
    let mut i: usize = start;
    let mut left: u16 = count;
    assert(answers(list@) =~= seq![]);
    while left > 0
        invariant
            i <= rep@.len(),
            answers_at(rep@, start as int, count as nat, seq![]) == answers_at(
                rep@,
                i as int,
                left as nat,
                answers(list@),
            ),
        decreases left,
    {
        let (name, end) = match read_answer_name(rep, i) {
            Some(found) => found,
            None => {
                return None;
            },
        };
        if rep.len() - end < DATA_SIZE {
            return None;
        }
        let ty: u16 = from_be(&read_field(rep, end));
        let len: u16 = from_be(&read_field(rep, end + 8));
        let data: usize = end + DATA_SIZE;
        if rep.len() - data < len as usize {
            return None;
        }
        let ghost before = list@;
        if ty == ARECORD && len == 4 {
            let ip: [u8; 4] = [rep[data], rep[data + 1], rep[data + 2], rep[data + 3]];
            let ghost view = AnswerView { name: name@, ip: rep@.subrange(data as int, data + 4) };
            assert(ip@ =~= rep@.subrange(data as int, data + 4));
            list.push(Answer { name, ip });
            assert(answers(list@) =~= answers(before).push(view));
        }
        i = data + len as usize;
        left = left - 1;
    }
    Some(list)
}

/// An answer stands for its name and its address.
pub proof fn law_answers_view(list: Seq<Answer>, i: int)
    ensures
        answers(list).len() == list.len(),
        0 <= i < list.len() ==> answers(list)[i].name == list[i].name@ && answers(list)[i].ip
            == list[i].ip@,
{
}

} // verus!
