//! ARP packet parsing, reply construction, and a fixed-capacity cache
//! with least-recently-used eviction.

use vstd::prelude::*;
use vstd::string::StringExecFns;

use crate::network::ethernet::be16;

verus! {

/// Ethernet + IPv4 ARP packet length.
pub const ARP_HDR_LEN: usize = 28;

#[derive(Clone, Copy, Debug, PartialEq, Eq, Structural)]
pub enum ArpOp {
    Request,
    Reply,
}

impl ArpOp {
    /// The on-wire operation code.
    pub fn as_u16(&self) -> (r: u16)
        ensures
            *self == ArpOp::Request ==> r == 1,
            *self == ArpOp::Reply ==> r == 2,
    {
        match self {
            ArpOp::Request => 1,
            ArpOp::Reply => 2,
        }
    }
}

#[derive(Clone, Copy, Debug, PartialEq, Eq)]
pub struct ArpPacket {
    pub htype: u16,
    pub ptype: u16,
    pub hlen: u8,
    pub plen: u8,
    pub opcode: u16,
    pub sender_mac: [u8; 6],
    pub sender_ip: [u8; 4],
    pub target_mac: [u8; 6],
    pub target_ip: [u8; 4],
}

/// Parse a 28-byte Ethernet/IPv4 ARP packet body.
pub fn parse_arp_packet(buf: &[u8]) -> (r: Option<ArpPacket>)
    ensures
        buf@.len() < 28 ==> r is None,
        buf@.len() >= 28 ==> (r matches Some(p) && p.htype == be16(buf@[0], buf@[1]) && p.ptype
            == be16(buf@[2], buf@[3]) && p.hlen == buf@[4] && p.plen == buf@[5] && p.opcode
            == be16(buf@[6], buf@[7]) && p.sender_mac@ == buf@.subrange(8, 14) && p.sender_ip@
            == buf@.subrange(14, 18) && p.target_mac@ == buf@.subrange(18, 24) && p.target_ip@
            == buf@.subrange(24, 28)),
{
    if buf.len() < ARP_HDR_LEN {
        return None;
    }
    let mut sender_mac = [0u8; 6];
    let mut target_mac = [0u8; 6];
    let mut k: usize = 0;
    while k < 6
        invariant
            k <= 6,
            buf@.len() >= 28,
            forall|j: int| 0 <= j < k ==> sender_mac@[j] == buf@[8 + j],
            forall|j: int| 0 <= j < k ==> target_mac@[j] == buf@[18 + j],
        decreases 6 - k,
    {
        sender_mac[k] = buf[8 + k];
        target_mac[k] = buf[18 + k];
        k = k + 1;
    }
    let mut sender_ip = [0u8; 4];
    let mut target_ip = [0u8; 4];
    let mut q: usize = 0;
    while q < 4
        invariant
            q <= 4,
            buf@.len() >= 28,
            forall|j: int| 0 <= j < q ==> sender_ip@[j] == buf@[14 + j],
            forall|j: int| 0 <= j < q ==> target_ip@[j] == buf@[24 + j],
        decreases 4 - q,
    {
        sender_ip[q] = buf[14 + q];
        target_ip[q] = buf[24 + q];
        q = q + 1;
    }
    let p = ArpPacket {
        htype: 256 * (buf[0] as u16) + buf[1] as u16,
        ptype: 256 * (buf[2] as u16) + buf[3] as u16,
        hlen: buf[4],
        plen: buf[5],
        opcode: 256 * (buf[6] as u16) + buf[7] as u16,
        sender_mac,
        sender_ip,
        target_mac,
        target_ip,
    };
    proof {
        assert(p.sender_mac@ =~= buf@.subrange(8, 14));
        assert(p.sender_ip@ =~= buf@.subrange(14, 18));
        assert(p.target_mac@ =~= buf@.subrange(18, 24));
        assert(p.target_ip@ =~= buf@.subrange(24, 28));
    }
    Some(p)
}

/// The 28 bytes of the reply to `req` from the host `my_mac` / `my_ip`.
pub open spec fn spec_arp_reply(req: ArpPacket, my_mac: Seq<u8>, my_ip: Seq<u8>) -> Seq<u8> {
    seq![0u8, 1u8, 8u8, 0u8, 6u8, 4u8, 0u8, 2u8] + my_mac + my_ip + req.sender_mac@
        + req.sender_ip@
}

/// Build the ARP reply that answers `req` on behalf of `my_mac`/`my_ip`.
pub fn build_arp_reply(req: &ArpPacket, my_mac: [u8; 6], my_ip: [u8; 4]) -> (v: Vec<u8>)
    ensures
        v@ == spec_arp_reply(*req, my_mac@, my_ip@),
        v@.len() == 28,
{
    let mut v: Vec<u8> = Vec::new();
    v.push(0);
    v.push(1);
    v.push(8);
    v.push(0);
    v.push(6);
    v.push(4);
    v.push(0);
    v.push(2);
    let mut k: usize = 0;
    while k < 6
        invariant
            k <= 6,
            v@.len() == 8 + k,
            v@.subrange(0, 8) =~= seq![0u8, 1u8, 8u8, 0u8, 6u8, 4u8, 0u8, 2u8],
            forall|j: int| 0 <= j < k ==> v@[8 + j] == my_mac@[j],
        decreases 6 - k,
    {
        v.push(my_mac[k]);
        k = k + 1;
    }
    let mut q: usize = 0;
    while q < 4
        invariant
            q <= 4,
            v@.len() == 14 + q,
            v@.subrange(0, 8) =~= seq![0u8, 1u8, 8u8, 0u8, 6u8, 4u8, 0u8, 2u8],
            forall|j: int| 0 <= j < 6 ==> v@[8 + j] == my_mac@[j],
            forall|j: int| 0 <= j < q ==> v@[14 + j] == my_ip@[j],
        decreases 4 - q,
    {
        v.push(my_ip[q]);
        q = q + 1;
    }
    let mut k2: usize = 0;
    while k2 < 6
        invariant
            k2 <= 6,
            v@.len() == 18 + k2,
            v@.subrange(0, 8) =~= seq![0u8, 1u8, 8u8, 0u8, 6u8, 4u8, 0u8, 2u8],
            forall|j: int| 0 <= j < 6 ==> v@[8 + j] == my_mac@[j],
            forall|j: int| 0 <= j < 4 ==> v@[14 + j] == my_ip@[j],
            forall|j: int| 0 <= j < k2 ==> v@[18 + j] == req.sender_mac@[j],
        decreases 6 - k2,
    {
        v.push(req.sender_mac[k2]);
        k2 = k2 + 1;
    }
    let mut q2: usize = 0;
    while q2 < 4
        invariant
            q2 <= 4,
            v@.len() == 24 + q2,
            v@.subrange(0, 8) =~= seq![0u8, 1u8, 8u8, 0u8, 6u8, 4u8, 0u8, 2u8],
            forall|j: int| 0 <= j < 6 ==> v@[8 + j] == my_mac@[j],
            forall|j: int| 0 <= j < 4 ==> v@[14 + j] == my_ip@[j],
            forall|j: int| 0 <= j < 6 ==> v@[18 + j] == req.sender_mac@[j],
            forall|j: int| 0 <= j < q2 ==> v@[24 + j] == req.sender_ip@[j],
        decreases 4 - q2,
    {
        v.push(req.sender_ip[q2]);
        q2 = q2 + 1;
    }
    proof {
        assert(v@ =~= spec_arp_reply(*req, my_mac@, my_ip@));
    }
    v
}

/// The hexadecimal digit for `n`, lowercase.
pub open spec fn hex_char(n: int) -> char {
    if n == 0 {
        '0'
    } else if n == 1 {
        '1'
    } else if n == 2 {
        '2'
    } else if n == 3 {
        '3'
    } else if n == 4 {
        '4'
    } else if n == 5 {
        '5'
    } else if n == 6 {
        '6'
    } else if n == 7 {
        '7'
    } else if n == 8 {
        '8'
    } else if n == 9 {
        '9'
    } else if n == 10 {
        'a'
    } else if n == 11 {
        'b'
    } else if n == 12 {
        'c'
    } else if n == 13 {
        'd'
    } else if n == 14 {
        'e'
    } else {
        'f'
    }
}

/// The two hex digits of one byte.
pub open spec fn hex_pair(b: u8) -> Seq<char> {
    seq![hex_char(b as int / 16), hex_char(b as int % 16)]
}

/// `aa:bb:cc:dd:ee:ff` for a six-byte hardware address.
pub open spec fn spec_hex_mac(m: Seq<u8>) -> Seq<char> {
    hex_pair(m[0]) + seq![':'] + hex_pair(m[1]) + seq![':'] + hex_pair(m[2]) + seq![':']
        + hex_pair(m[3]) + seq![':'] + hex_pair(m[4]) + seq![':'] + hex_pair(m[5])
}

/// The decimal digits of a byte, without leading zeros.
pub open spec fn spec_dec(n: int) -> Seq<char> {
    if n < 10 {
        seq![hex_char(n)]
    } else if n < 100 {
        seq![hex_char(n / 10), hex_char(n % 10)]
    } else {
        seq![hex_char(n / 100), hex_char(n / 10 % 10), hex_char(n % 10)]
    }
}

/// `a.b.c.d` for a four-byte address.
pub open spec fn spec_format_ip(ip: Seq<u8>) -> Seq<char> {
    spec_dec(ip[0] as int) + seq!['.'] + spec_dec(ip[1] as int) + seq!['.'] + spec_dec(
        ip[2] as int,
    ) + seq!['.'] + spec_dec(ip[3] as int)
}

/// The one-character string for a hex digit.
fn hex_digit_str(d: u8) -> (r: &'static str)
    requires
        d < 16,
    ensures
        r@ == seq![hex_char(d as int)],
{
    if d == 0 {
        proof {
            reveal_strlit("0");
        }
        "0"
    } else if d == 1 {
        proof {
            reveal_strlit("1");
        }
        "1"
    } else if d == 2 {
        proof {
            reveal_strlit("2");
        }
        "2"
    } else if d == 3 {
        proof {
            reveal_strlit("3");
        }
        "3"
    } else if d == 4 {
        proof {
            reveal_strlit("4");
        }
        "4"
    } else if d == 5 {
        proof {
            reveal_strlit("5");
        }
        "5"
    } else if d == 6 {
        proof {
            reveal_strlit("6");
        }
        "6"
    } else if d == 7 {
        proof {
            reveal_strlit("7");
        }
        "7"
    } else if d == 8 {
        proof {
            reveal_strlit("8");
        }
        "8"
    } else if d == 9 {
        proof {
            reveal_strlit("9");
        }
        "9"
    } else if d == 10 {
        proof {
            reveal_strlit("a");
        }
        "a"
    } else if d == 11 {
        proof {
            reveal_strlit("b");
        }
        "b"
    } else if d == 12 {
        proof {
            reveal_strlit("c");
        }
        "c"
    } else if d == 13 {
        proof {
            reveal_strlit("d");
        }
        "d"
    } else if d == 14 {
        proof {
            reveal_strlit("e");
        }
        "e"
    } else {
        proof {
            reveal_strlit("f");
        }
        "f"
    }
}

/// Render a hardware address as `aa:bb:cc:dd:ee:ff`.
pub fn hex_mac(m: &[u8; 6]) -> (s: String)
    ensures
        s@ == spec_hex_mac(m@),
{
    let mut s = String::new();
    let mut i: usize = 0;
    while i < 6
        invariant
            i <= 6,
            i == 0 ==> s@ == Seq::<char>::empty(),
            i > 0 ==> s@ =~= spec_hex_mac(m@).take(3 * i - 1),
        decreases 6 - i,
    {
        if i > 0 {
            proof {
                reveal_strlit(":");
            }
            s.append(":");
        }
        s.append(hex_digit_str(m[i] / 16));
        s.append(hex_digit_str(m[i] % 16));
        proof {
            assert(s@ =~= spec_hex_mac(m@).take(3 * (i + 1) - 1));
        }
        i = i + 1;
    }
    proof {
        assert(spec_hex_mac(m@).take(17) =~= spec_hex_mac(m@));
    }
    s
}

/// The decimal rendering of one byte.
fn dec_str(b: u8) -> (s: String)
    ensures
        s@ == spec_dec(b as int),
{
    let mut s = String::new();
    if b >= 100 {
        s.append(hex_digit_str(b / 100));
        s.append(hex_digit_str(b / 10 % 10));
        s.append(hex_digit_str(b % 10));
        proof {
            assert(s@ =~= spec_dec(b as int));
        }
    } else if b >= 10 {
        s.append(hex_digit_str(b / 10));
        s.append(hex_digit_str(b % 10));
        proof {
            assert(s@ =~= spec_dec(b as int));
        }
    } else {
        s.append(hex_digit_str(b));
        proof {
            assert(s@ =~= spec_dec(b as int));
        }
    }
    s
}

/// Render an IPv4 address as `a.b.c.d`.
pub fn format_ip(ip: &[u8; 4]) -> (s: String)
    ensures
        s@ == spec_format_ip(ip@),
{
    let mut s = dec_str(ip[0]);
    proof {
        reveal_strlit(".");
    }
    s.append(".");
    s.append(dec_str(ip[1]).as_str());
    s.append(".");
    s.append(dec_str(ip[2]).as_str());
    s.append(".");
    s.append(dec_str(ip[3]).as_str());
    proof {
        assert(s@ =~= spec_format_ip(ip@));
    }
    s
}

/// One slot of the cache.
#[derive(Clone, Copy)]
struct ArpEntry {
    ip: [u8; 4],
    mac: [u8; 6],
    age: u64,
    valid: bool,
}

/// Slot `e` answers for address `ip`.
spec fn entry_matches(e: ArpEntry, ip: Seq<u8>) -> bool {
    e.valid && e.ip@ == ip
}

/// The first valid slot from `i` on that answers for `ip`.
spec fn lookup_from(s: Seq<ArpEntry>, ip: Seq<u8>, i: int) -> Option<Seq<u8>>
    decreases s.len() - i,
{
    if i < 0 || i >= s.len() {
        None
    } else if entry_matches(s[i], ip) {
        Some(s[i].mac@)
    } else {
        lookup_from(s, ip, i + 1)
    }
}

/// If no slot from `i` on matches, the lookup misses.
proof fn lemma_lookup_none(s: Seq<ArpEntry>, ip: Seq<u8>, i: int)
    requires
        forall|k: int| i <= k < s.len() ==> !entry_matches(#[trigger] s[k], ip),
    ensures
        lookup_from(s, ip, i) is None,
    decreases s.len() - i,
{
    if 0 <= i < s.len() {
        lemma_lookup_none(s, ip, i + 1);
    }
}

/// If slot `m` matches and no earlier slot does, the lookup returns its
/// hardware address.
proof fn lemma_lookup_at(s: Seq<ArpEntry>, ip: Seq<u8>, i: int, m: int)
    requires
        0 <= i <= m < s.len(),
        entry_matches(s[m], ip),
        forall|k: int| i <= k < m ==> !entry_matches(#[trigger] s[k], ip),
    ensures
        lookup_from(s, ip, i) == Some(s[m].mac@),
    decreases s.len() - i,
{
    if i < m {
        lemma_lookup_at(s, ip, i + 1, m);
    }
}

/// Lookups agree on tables with the same match pattern and addresses.
proof fn lemma_lookup_congruent(s1: Seq<ArpEntry>, s2: Seq<ArpEntry>, ip: Seq<u8>, i: int)
    requires
        s1.len() == s2.len(),
        forall|k: int|
            i <= k < s1.len() ==> (entry_matches(#[trigger] s2[k], ip) == entry_matches(
                s1[k],
                ip,
            ) && (entry_matches(s1[k], ip) ==> s2[k].mac@ == s1[k].mac@)),
    ensures
        lookup_from(s2, ip, i) == lookup_from(s1, ip, i),
    decreases s1.len() - i,
{
    if 0 <= i < s1.len() {
        lemma_lookup_congruent(s1, s2, ip, i + 1);
    }
}

/// A fixed-size cache of IPv4-to-hardware address mappings, with a
/// least-recently-used eviction policy driven by an age counter.
pub struct ArpCache {
    entries: Vec<ArpEntry>,
    clock: u64,
}

impl ArpCache {
    /// The hardware address the cache answers for `ip`, if any.
    pub closed spec fn spec_lookup(&self, ip: Seq<u8>) -> Option<Seq<u8>> {
        lookup_from(self.entries@, ip, 0)
    }

    /// At most sixteen slots, and no two valid slots for one address.
    pub closed spec fn wf(&self) -> bool {
        &&& self.entries@.len() <= 16
        &&& forall|k1: int, k2: int|
            0 <= k1 < k2 < self.entries@.len() && entry_matches(
                #[trigger] self.entries@[k1],
                self.entries@[k1].ip@,
            ) && entry_matches(#[trigger] self.entries@[k2], self.entries@[k2].ip@)
                ==> self.entries@[k1].ip@ != self.entries@[k2].ip@
    }

    /// An empty cache.
    pub fn new() -> (c: ArpCache)
        ensures
            c.wf(),
            forall|ip: Seq<u8>| c.spec_lookup(ip) is None,
    {
        let c = ArpCache { entries: Vec::new(), clock: 1 };
        proof {
            assert forall|ip: Seq<u8>| c.spec_lookup(ip) is None by {
                lemma_lookup_none(c.entries@, ip, 0);
            }
        }
        c
    }

    /// Look a hardware address up.
    pub fn lookup(&self, ip: [u8; 4]) -> (r: Option<[u8; 6]>)
        ensures
            r matches Some(m) ==> self.spec_lookup(ip@) == Some(m@),
            r is None ==> self.spec_lookup(ip@) is None,
    {
        let n = self.entries.len();
        let mut i: usize = 0;
        while i < n
            invariant
                i <= n,
                n == self.entries@.len(),
                forall|k: int|
                    0 <= k < i ==> !entry_matches(#[trigger] self.entries@[k], ip@),
            decreases n - i,
        {
            let e = self.entries[i];
            if e.valid && ip4_eq(&e.ip, &ip) {
                proof {
                    lemma_lookup_at(self.entries@, ip@, 0, i as int);
                }
                return Some(e.mac);
            }
            i = i + 1;
        }
        proof {
            lemma_lookup_none(self.entries@, ip@, 0);
        }
        None
    }

    /// Insert a mapping: refresh an existing slot, fill an invalid or
    /// unused one, or evict the least recently used.  Afterwards the
    /// cache answers `ip` with `mac`; any other address keeps its answer
    /// unless its slot was the one evicted.
    pub fn insert(&mut self, ip: [u8; 4], mac: [u8; 6])
        requires
            old(self).wf(),
        ensures
            final(self).wf(),
            final(self).spec_lookup(ip@) == Some(mac@),
            forall|ip2: Seq<u8>|
                ip2 != ip@ ==> (#[trigger] final(self).spec_lookup(ip2) == old(
                    self,
                ).spec_lookup(ip2) || final(self).spec_lookup(ip2) is None),
    {
        self.clock = self.clock.wrapping_add(1);
        let fresh = ArpEntry { ip, mac, age: self.clock, valid: true };
        let n = self.entries.len();
        let ghost s0 = self.entries@;
        let mut i: usize = 0;
        while i < n
            invariant
                i <= n,
                n == self.entries@.len(),
                self.entries@ == s0,
                fresh.ip@ == ip@ && fresh.mac@ == mac@ && fresh.valid,
                old(self).wf(),
                old(self).entries@ == s0,
                forall|k: int| 0 <= k < i ==> !entry_matches(#[trigger] s0[k], ip@),
            decreases n - i,
        {
            let e = self.entries[i];
            if e.valid && ip4_eq(&e.ip, &ip) {
                self.entries[i] = fresh;
                proof {
                    assert forall|k: int|
                        0 <= k < s0.len() && k != i as int implies !entry_matches(
                        #[trigger] s0[k],
                        ip@,
                    ) by {
                        if k > i as int && entry_matches(s0[k], ip@) {
                            assert(entry_matches(s0[i as int], s0[i as int].ip@));
                            assert(entry_matches(s0[k], s0[k].ip@));
                        }
                    }
                    self.lemma_after_replace(s0, ip@, mac@, i as int);
                }
                return ;
            }
            i = i + 1;
        }
        let mut k: usize = 0;
        while k < n
            invariant
                k <= n,
                n == self.entries@.len(),
                self.entries@ == s0,
                fresh.ip@ == ip@ && fresh.mac@ == mac@ && fresh.valid,
                old(self).wf(),
                old(self).entries@ == s0,
                forall|q: int| 0 <= q < n ==> !entry_matches(#[trigger] s0[q], ip@),
                forall|q: int| 0 <= q < k ==> (#[trigger] s0[q]).valid,
            decreases n - k,
        {
            if !self.entries[k].valid {
                self.entries[k] = fresh;
                proof {
                    self.lemma_after_replace(s0, ip@, mac@, k as int);
                }
                return ;
            }
            k = k + 1;
        }
        if n < 16 {
            self.entries.push(fresh);
            proof {
                let s1 = self.entries@;
                assert(entry_matches(s1[n as int], ip@));
                lemma_lookup_at(s1, ip@, 0, n as int);
                assert forall|ip2: Seq<u8>| ip2 != ip@ implies (#[trigger] self.spec_lookup(ip2)
                    == old(self).spec_lookup(ip2) || self.spec_lookup(ip2) is None) by {
                    self.lemma_push_other(s0, ip@, ip2);
                }
                assert(self.wf());
            }
            return ;
        }
        let mut imin: usize = 0;
        let mut m: usize = 1;
        while m < n
            invariant
                n == self.entries@.len(),
                m <= n,
                imin < n || n == 0,
                self.entries@ == s0,
            decreases n - m,
        {
            if self.entries[m].age < self.entries[imin].age {
                imin = m;
            }
            m = m + 1;
        }
        self.entries[imin] = fresh;
        proof {
            self.lemma_after_replace(s0, ip@, mac@, imin as int);
        }
    }

    /// After slot `at` is replaced by a fresh mapping for `ip`, in a
    /// table that had no other slot for `ip` before it: the cache
    /// answers `ip` with the new address, every other address keeps its
    /// answer unless its slot was the replaced one, and well-formedness
    /// is preserved.
    proof fn lemma_after_replace(&self, s0: Seq<ArpEntry>, ip: Seq<u8>, mac: Seq<u8>, at: int)
        requires
            0 <= at < s0.len(),
            s0.len() <= 16,
            self.entries@.len() == s0.len(),
            forall|k: int| 0 <= k < s0.len() && k != at ==> self.entries@[k] == s0[k],
            entry_matches(self.entries@[at], ip),
            self.entries@[at].mac@ == mac,
            self.entries@[at].ip@ == ip,
            forall|k: int|
                0 <= k < s0.len() && k != at ==> !entry_matches(#[trigger] s0[k], ip),
            forall|k1: int, k2: int|
                0 <= k1 < k2 < s0.len() && entry_matches(#[trigger] s0[k1], s0[k1].ip@)
                    && entry_matches(#[trigger] s0[k2], s0[k2].ip@) ==> s0[k1].ip@
                    != s0[k2].ip@,
        ensures
            self.wf(),
            self.spec_lookup(ip) == Some(mac),
            forall|ip2: Seq<u8>|
                ip2 != ip ==> (#[trigger] self.spec_lookup(ip2) == lookup_from(s0, ip2, 0)
                    || self.spec_lookup(ip2) is None),
    {
        let s1 = self.entries@;
        assert forall|k: int| 0 <= k < at implies !entry_matches(#[trigger] s1[k], ip) by {
            assert(s1[k] == s0[k]);
        }
        lemma_lookup_at(s1, ip, 0, at);
        assert forall|ip2: Seq<u8>| ip2 != ip implies (#[trigger] self.spec_lookup(ip2)
            == lookup_from(s0, ip2, 0) || self.spec_lookup(ip2) is None) by {
            if entry_matches(s0[at], ip2) {
                // The replaced slot was ip2's only slot; afterwards every
                // slot for ip2 is gone.
                assert forall|k: int| 0 <= k < s1.len() implies !entry_matches(
                    #[trigger] s1[k],
                    ip2,
                ) by {
                    if k != at && entry_matches(s1[k], ip2) {
                        assert(entry_matches(s0[k], s0[k].ip@));
                        assert(entry_matches(s0[at], s0[at].ip@));
                    }
                }
                lemma_lookup_none(s1, ip2, 0);
            } else {
                assert forall|k: int|
                    0 <= k < s1.len() implies (entry_matches(#[trigger] s1[k], ip2)
                    == entry_matches(s0[k], ip2) && (entry_matches(s0[k], ip2) ==> s1[k].mac@
                    == s0[k].mac@)) by {}
                lemma_lookup_congruent(s0, s1, ip2, 0);
            }
        }
        assert forall|k1: int, k2: int|
            0 <= k1 < k2 < s1.len() && entry_matches(#[trigger] s1[k1], s1[k1].ip@)
                && entry_matches(#[trigger] s1[k2], s1[k2].ip@) implies s1[k1].ip@
            != s1[k2].ip@ by {
            if k1 != at && k2 != at {
                assert(s1[k1] == s0[k1] && s1[k2] == s0[k2]);
            } else if k1 == at {
                assert(s1[k2] == s0[k2]);
                if s1[k2].ip@ == ip {
                    assert(entry_matches(s0[k2], ip));
                    assert(false);
                }
            } else {
                assert(s1[k1] == s0[k1]);
                if s1[k1].ip@ == ip {
                    assert(entry_matches(s0[k1], ip));
                    assert(false);
                }
            }
        }
    }

    /// Appending a fresh mapping for `ip` leaves every other address's
    /// answer as it was.
    proof fn lemma_push_other(&self, s0: Seq<ArpEntry>, ip: Seq<u8>, ip2: Seq<u8>)
        requires
            ip2 != ip,
            self.entries@.len() == s0.len() + 1,
            forall|k: int| 0 <= k < s0.len() ==> self.entries@[k] == s0[k],
            self.entries@[s0.len() as int].ip@ == ip,
        ensures
            self.spec_lookup(ip2) == lookup_from(s0, ip2, 0) || self.spec_lookup(ip2) is None,
    {
        let s1 = self.entries@;
        let r0 = lookup_from(s0, ip2, 0);
        if r0 is Some {
            lemma_lookup_some_witness(s0, ip2, 0);
            let m = choose|m: int|
                0 <= m < s0.len() && entry_matches(s0[m], ip2) && lookup_from(s0, ip2, 0)
                    == Some(s0[m].mac@) && forall|k: int|
                    0 <= k < m ==> !entry_matches(#[trigger] s0[k], ip2);
            assert forall|k: int| 0 <= k < m implies !entry_matches(
                #[trigger] s1[k],
                ip2,
            ) by {
                assert(s1[k] == s0[k]);
            }
            assert(s1[m] == s0[m]);
            lemma_lookup_at(s1, ip2, 0, m);
        } else {
            lemma_lookup_none_witness(s0, ip2, 0);
            assert forall|k: int| 0 <= k < s1.len() implies !entry_matches(
                #[trigger] s1[k],
                ip2,
            ) by {
                if k < s0.len() {
                    assert(s1[k] == s0[k]);
                }
            }
            lemma_lookup_none(s1, ip2, 0);
        }
    }

    /// Remove the mapping for `ip`, if present, by invalidating its
    /// slot.
    pub fn remove(&mut self, ip: [u8; 4])
        requires
            old(self).wf(),
        ensures
            final(self).wf(),
            final(self).spec_lookup(ip@) is None,
            forall|ip2: Seq<u8>|
                ip2 != ip@ ==> #[trigger] final(self).spec_lookup(ip2) == old(
                    self,
                ).spec_lookup(ip2),
    {
        let n = self.entries.len();
        let ghost s0 = self.entries@;
        let mut i: usize = 0;
        while i < n
            invariant
                i <= n,
                n == self.entries@.len(),
                self.entries@ == s0,
                old(self).wf(),
                old(self).entries@ == s0,
                forall|k: int| 0 <= k < i ==> !entry_matches(#[trigger] s0[k], ip@),
            decreases n - i,
        {
            let e = self.entries[i];
            if e.valid && ip4_eq(&e.ip, &ip) {
                let mut cleared = e;
                cleared.valid = false;
                self.entries[i] = cleared;
                proof {
                    let s1 = self.entries@;
                    assert forall|k: int| 0 <= k < s1.len() implies !entry_matches(
                        #[trigger] s1[k],
                        ip@,
                    ) by {
                        if k != i && entry_matches(s1[k], ip@) {
                            assert(entry_matches(s0[k], s0[k].ip@));
                            assert(entry_matches(s0[i as int], s0[i as int].ip@));
                        }
                    }
                    lemma_lookup_none(s1, ip@, 0);
                    assert forall|ip2: Seq<u8>| ip2 != ip@ implies #[trigger] self.spec_lookup(
                        ip2,
                    ) == old(self).spec_lookup(ip2) by {
                        assert forall|k: int|
                            0 <= k < s1.len() implies (entry_matches(#[trigger] s1[k], ip2)
                            == entry_matches(s0[k], ip2) && (entry_matches(s0[k], ip2)
                            ==> s1[k].mac@ == s0[k].mac@)) by {}
                        lemma_lookup_congruent(s0, s1, ip2, 0);
                    }
                    assert forall|k1: int, k2: int|
                        0 <= k1 < k2 < s1.len() && entry_matches(#[trigger] s1[k1], s1[k1].ip@)
                            && entry_matches(#[trigger] s1[k2], s1[k2].ip@) implies s1[k1].ip@
                        != s1[k2].ip@ by {
                        if k1 != i && k2 != i {
                            assert(s1[k1] == s0[k1] && s1[k2] == s0[k2]);
                        }
                    }
                }
                return ;
            }
            i = i + 1;
        }
        proof {
            lemma_lookup_none(self.entries@, ip@, 0);
        }
    }
}

/// A miss means no slot matches.
proof fn lemma_lookup_none_witness(s: Seq<ArpEntry>, ip: Seq<u8>, i: int)
    requires
        i >= 0,
        lookup_from(s, ip, i) is None,
    ensures
        forall|k: int| i <= k < s.len() ==> !entry_matches(#[trigger] s[k], ip),
    decreases s.len() - i,
{
    if 0 <= i < s.len() {
        assert(!entry_matches(s[i], ip));
        lemma_lookup_none_witness(s, ip, i + 1);
    }
}

/// A hit names a first matching slot.
proof fn lemma_lookup_some_witness(s: Seq<ArpEntry>, ip: Seq<u8>, i: int)
    requires
        i >= 0,
        lookup_from(s, ip, i) is Some,
    ensures
        exists|m: int|
            i <= m < s.len() && entry_matches(s[m], ip) && lookup_from(s, ip, i) == Some(
                s[m].mac@,
            ) && forall|k: int| i <= k < m ==> !entry_matches(#[trigger] s[k], ip),
    decreases s.len() - i,
{
    if 0 <= i < s.len() {
        if entry_matches(s[i], ip) {
        } else {
            lemma_lookup_some_witness(s, ip, i + 1);
            let m = choose|m: int|
                i + 1 <= m < s.len() && entry_matches(s[m], ip) && lookup_from(s, ip, i + 1)
                    == Some(s[m].mac@) && forall|k: int|
                    i + 1 <= k < m ==> !entry_matches(#[trigger] s[k], ip);
            assert(i <= m < s.len() && entry_matches(s[m], ip) && lookup_from(s, ip, i)
                == Some(s[m].mac@) && forall|k: int|
                i <= k < m ==> !entry_matches(#[trigger] s[k], ip));
        }
    }
}

/// Bytewise equality of two IPv4 addresses.
fn ip4_eq(a: &[u8; 4], b: &[u8; 4]) -> (r: bool)
    ensures
        r == (a@ == b@),
{
    let r = a[0] == b[0] && a[1] == b[1] && a[2] == b[2] && a[3] == b[3];
    proof {
        if r {
            assert(a@ =~= b@);
        }
    }
    r
}

/// Parse an incoming ARP Ethernet frame and build an ARP reply when the
/// frame is a request directed at `our_ip` and both our addresses are
/// known; in every other case no reply is sent.
pub fn handle_arp_packet(
    frame: &[u8],
    our_ip: Option<[u8; 4]>,
    our_mac: Option<[u8; 6]>,
) -> (r: Option<Vec<u8>>)
    ensures
        ({
            let answerable = frame@.len() >= 42 && be16(frame@[12], frame@[13]) == 0x0806
                && be16(frame@[20], frame@[21]) == 1 && our_ip is Some && our_mac is Some
                && frame@.subrange(38, 42) == our_ip->0@;
            &&& !answerable ==> r is None
            &&& answerable ==> (r matches Some(v) && v@ == spec_arp_reply_frame(
                frame@,
                our_mac->0@,
                our_ip->0@,
            ))
        }),
{
    if frame.len() < 42 {
        return None;
    }
    let ethertype: u16 = 256 * (frame[12] as u16) + frame[13] as u16;
    if ethertype != 0x0806 {
        return None;
    }
    let opcode: u16 = 256 * (frame[20] as u16) + frame[21] as u16;
    if opcode != 1 {
        return None;
    }
    let my_ip = match our_ip {
        Some(ip) => ip,
        None => {
            return None;
        },
    };
    let my_mac = match our_mac {
        Some(m) => m,
        None => {
            return None;
        },
    };
    let target_matches = frame[38] == my_ip[0] && frame[39] == my_ip[1] && frame[40] == my_ip[2]
        && frame[41] == my_ip[3];
    if !target_matches {
        proof {
            assert(frame@.subrange(38, 42).len() == 4);
            if frame@.subrange(38, 42) == my_ip@ {
                assert(frame@.subrange(38, 42)[0] == my_ip@[0]);
                assert(frame@.subrange(38, 42)[1] == my_ip@[1]);
                assert(frame@.subrange(38, 42)[2] == my_ip@[2]);
                assert(frame@.subrange(38, 42)[3] == my_ip@[3]);
            }
        }
        return None;
    }
    proof {
        assert(frame@.subrange(38, 42) =~= my_ip@);
    }
    let mut out: Vec<u8> = Vec::new();
    let mut k: usize = 0;
    // Ethernet: destination is the requester, source is us.
    while k < 6
        invariant
            k <= 6,
            frame@.len() >= 42,
            out@.len() == k,
            forall|j: int| 0 <= j < k ==> out@[j] == frame@[22 + j],
        decreases 6 - k,
    {
        out.push(frame[22 + k]);
        k = k + 1;
    }
    let mut k2: usize = 0;
    while k2 < 6
        invariant
            k2 <= 6,
            frame@.len() >= 42,
            out@.len() == 6 + k2,
            forall|j: int| 0 <= j < 6 ==> out@[j] == frame@[22 + j],
            forall|j: int| 0 <= j < k2 ==> out@[6 + j] == my_mac@[j],
        decreases 6 - k2,
    {
        out.push(my_mac[k2]);
        k2 = k2 + 1;
    }
    out.push(0x08);
    out.push(0x06);
    // ARP reply payload.
    out.push(0);
    out.push(1);
    out.push(8);
    out.push(0);
    out.push(6);
    out.push(4);
    out.push(0);
    out.push(2);
    let mut k3: usize = 0;
    while k3 < 6
        invariant
            k3 <= 6,
            frame@.len() >= 42,
            out@.len() == 22 + k3,
            forall|j: int| 0 <= j < 6 ==> out@[j] == frame@[22 + j],
            forall|j: int| 0 <= j < 6 ==> out@[6 + j] == my_mac@[j],
            out@.subrange(12, 22) =~= seq![
                0x08u8,
                0x06u8,
                0u8,
                1u8,
                8u8,
                0u8,
                6u8,
                4u8,
                0u8,
                2u8,
            ],
            forall|j: int| 0 <= j < k3 ==> out@[22 + j] == my_mac@[j],
        decreases 6 - k3,
    {
        out.push(my_mac[k3]);
        k3 = k3 + 1;
    }
    let mut q: usize = 0;
    while q < 4
        invariant
            q <= 4,
            frame@.len() >= 42,
            out@.len() == 28 + q,
            forall|j: int| 0 <= j < 6 ==> out@[j] == frame@[22 + j],
            forall|j: int| 0 <= j < 6 ==> out@[6 + j] == my_mac@[j],
            out@.subrange(12, 22) =~= seq![
                0x08u8,
                0x06u8,
                0u8,
                1u8,
                8u8,
                0u8,
                6u8,
                4u8,
                0u8,
                2u8,
            ],
            forall|j: int| 0 <= j < 6 ==> out@[22 + j] == my_mac@[j],
            forall|j: int| 0 <= j < q ==> out@[28 + j] == my_ip@[j],
        decreases 4 - q,
    {
        out.push(my_ip[q]);
        q = q + 1;
    }
    let mut k4: usize = 0;
    while k4 < 10
        invariant
            k4 <= 10,
            frame@.len() >= 42,
            out@.len() == 32 + k4,
            forall|j: int| 0 <= j < 6 ==> out@[j] == frame@[22 + j],
            forall|j: int| 0 <= j < 6 ==> out@[6 + j] == my_mac@[j],
            out@.subrange(12, 22) =~= seq![
                0x08u8,
                0x06u8,
                0u8,
                1u8,
                8u8,
                0u8,
                6u8,
                4u8,
                0u8,
                2u8,
            ],
            forall|j: int| 0 <= j < 6 ==> out@[22 + j] == my_mac@[j],
            forall|j: int| 0 <= j < 4 ==> out@[28 + j] == my_ip@[j],
            forall|j: int| 0 <= j < k4 ==> #[trigger] out@[32 + j] == frame@[22 + j],
        decreases 10 - k4,
    {
        out.push(frame[22 + k4]);
        k4 = k4 + 1;
    }
    proof {
        assert forall|i: int| 12 <= i < 22 implies #[trigger] out@[i] == out@.subrange(12, 22)[i
            - 12] by {}
        assert forall|i: int| 6 <= i < 12 implies #[trigger] out@[i] == my_mac@[i - 6] by {
            assert(out@[6 + (i - 6)] == my_mac@[i - 6]);
        }
        assert forall|i: int| 22 <= i < 28 implies #[trigger] out@[i] == my_mac@[i - 22] by {
            assert(out@[22 + (i - 22)] == my_mac@[i - 22]);
        }
        assert forall|i: int| 28 <= i < 32 implies #[trigger] out@[i] == my_ip@[i - 28] by {
            assert(out@[28 + (i - 28)] == my_ip@[i - 28]);
        }
        assert forall|i: int| 32 <= i < 42 implies #[trigger] out@[i] == frame@[i - 10] by {
            assert(out@[32 + (i - 32)] == frame@[22 + (i - 32)]);
        }
        assert(out@ =~= spec_arp_reply_frame(frame@, my_mac@, my_ip@));
    }
    Some(out)
}

/// The 42-byte Ethernet frame that answers the ARP request in `frame`.
pub open spec fn spec_arp_reply_frame(frame: Seq<u8>, my_mac: Seq<u8>, my_ip: Seq<u8>) -> Seq<
    u8,
> {
    Seq::new(
        42,
        |i: int|
            if i < 6 {
                frame[22 + i]
            } else if i < 12 {
                my_mac[i - 6]
            } else if i == 12 {
                0x08u8
            } else if i == 13 {
                0x06u8
            } else if i == 14 {
                0u8
            } else if i == 15 {
                1u8
            } else if i == 16 {
                8u8
            } else if i == 17 {
                0u8
            } else if i == 18 {
                6u8
            } else if i == 19 {
                4u8
            } else if i == 20 {
                0u8
            } else if i == 21 {
                2u8
            } else if i < 28 {
                my_mac[i - 22]
            } else if i < 32 {
                my_ip[i - 28]
            } else {
                frame[i - 10]
            },
    )
}

} // verus!
