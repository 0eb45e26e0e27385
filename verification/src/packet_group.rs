//! The reassembly state for a single file id: the file's name, the
//! expected fragment count, and the fragments received so far.

use vstd::prelude::*;
use std::collections::HashMap;

use crate::errors::PacketGroupError;
use crate::packet::{
    data_number, data_payload, header_name, is_last_data, Data, Header, Packet, PacketModel,
};

verus! {

broadcast use vstd::std_specs::hash::group_hash_axioms;

/// The ghost value of a reassembly state: the name and expected count as
/// announced so far, and the received fragments keyed by fragment number.
#[verifier::ext_equal]
pub struct GroupModel {
    pub file_name: Option<Seq<char>>,
    pub expected_packet_count: Option<usize>,
    pub packets: Map<u16, Seq<u8>>,
}

/// The state of a transfer no packet has arrived for yet.
pub open spec fn empty_group() -> GroupModel {
    GroupModel { file_name: None, expected_packet_count: None, packets: Map::empty() }
}

/// How one packet changes a reassembly state: a Header sets the name
/// (the latest one wins), a Data stores its payload under its fragment
/// number (the latest delivery wins) and, when flagged as last, records
/// the expected count as one past its own number (again, latest wins).
pub open spec fn apply_packet(g: GroupModel, p: PacketModel) -> GroupModel {
    match p {
        PacketModel::Header { file_id: _, file_name } => GroupModel {
            file_name: Some(file_name),
            expected_packet_count: g.expected_packet_count,
            packets: g.packets,
        },
        PacketModel::Data { file_id: _, packet_number, is_last_packet, payload } => GroupModel {
            file_name: g.file_name,
            expected_packet_count: if is_last_packet {
                Some((packet_number + 1) as usize)
            } else {
                g.expected_packet_count
            },
            packets: g.packets.insert(packet_number, payload),
        },
    }
}

/// A state is complete when the expected count is known, exactly that
/// many fragments are stored, and every fragment number below the count
/// is among them.  The count equality alone would not do: a duplicate
/// delivery plus a gap can match the count while a number is absent.
pub open spec fn group_complete(g: GroupModel) -> bool {
    match g.expected_packet_count {
        Some(c) => g.packets.dom().len() == c && (forall|k: u16| k < c ==> g.packets.contains_key(k)),
        None => false,
    }
}

/// The bytes of all stored fragments with numbers below `n`, joined in
/// ascending fragment-number order.
pub open spec fn assembled_below(packets: Map<u16, Seq<u8>>, n: int) -> Seq<u8>
    decreases n,
{
    if n <= 0 {
        Seq::empty()
    } else if packets.contains_key((n - 1) as u16) {
        assembled_below(packets, n - 1) + packets[(n - 1) as u16]
    } else {
        assembled_below(packets, n - 1)
    }
}

/// The bytes of all stored fragments, joined in ascending
/// fragment-number order.
pub open spec fn assembled(packets: Map<u16, Seq<u8>>) -> Seq<u8> {
    assembled_below(packets, 0x10000)
}

/// The first fragment number in `[i, c)` that is absent, or `c` when
/// none is.
pub open spec fn first_missing_from(packets: Map<u16, Seq<u8>>, c: int, i: int) -> int
    decreases c - i,
{
    if i >= c {
        c
    } else if !packets.contains_key(i as u16) {
        i
    } else {
        first_missing_from(packets, c, i + 1)
    }
}

/// What finalizing a state yields: the assembled bytes, or the error the
/// checks assign to it.  Checks run in this order: the name must be
/// known, the expected count must be known and fit the fragment-number
/// space (no fragment number can announce a larger one), and every
/// fragment number below the count must be present (the lowest missing
/// one is reported).
pub open spec fn finalized(g: GroupModel) -> Result<Seq<u8>, PacketGroupError> {
    if g.file_name is None {
        Err(PacketGroupError::MissingFileName)
    } else if g.expected_packet_count is None {
        Err(PacketGroupError::MissingPacketCount)
    } else {
        let c = g.expected_packet_count->0 as int;
        if c > 0x10000 {
            Err(PacketGroupError::MissingPacketCount)
        } else if first_missing_from(g.packets, c, 0) < c {
            Err(PacketGroupError::MissingPacket(first_missing_from(g.packets, c, 0) as u16))
        } else {
            Ok(assembled(g.packets))
        }
    }
}

/// The state after a whole batch of packets is folded in, first element
/// first.
pub open spec fn apply_packets(g: GroupModel, s: Seq<PacketModel>) -> GroupModel
    decreases s.len(),
{
    if s.len() == 0 {
        g
    } else {
        apply_packets(apply_packet(g, s[0]), s.drop_first())
    }
}

/// No two data packets of the batch carry the same fragment number.
pub open spec fn distinct_data_numbers(s: Seq<PacketModel>) -> bool {
    forall|i: int, j: int|
        #![trigger s[i], s[j]]
        0 <= i < s.len() && 0 <= j < s.len() && s[i] is Data && s[j] is Data && data_number(s[i])
            == data_number(s[j]) ==> i == j
}

/// The batch holds at most one header packet.
pub open spec fn at_most_one_header(s: Seq<PacketModel>) -> bool {
    forall|i: int, j: int|
        #![trigger s[i], s[j]]
        0 <= i < s.len() && 0 <= j < s.len() && s[i] is Header && s[j] is Header ==> i == j
}

/// The batch holds at most one data packet flagged as last.
pub open spec fn at_most_one_last(s: Seq<PacketModel>) -> bool {
    forall|i: int, j: int|
        #![trigger s[i], s[j]]
        0 <= i < s.len() && 0 <= j < s.len() && is_last_data(s[i]) && is_last_data(s[j]) ==> i == j
}

/// Whether the batch holds a header packet.
pub open spec fn has_header(s: Seq<PacketModel>) -> bool {
    exists|i: int| 0 <= i < s.len() && s[i] is Header
}

/// The name announced by a header packet of the batch.
pub open spec fn batch_header_name(s: Seq<PacketModel>) -> Seq<char> {
    header_name(s[choose|i: int| 0 <= i < s.len() && s[i] is Header])
}

/// Whether the batch holds a data packet flagged as last.
pub open spec fn has_last(s: Seq<PacketModel>) -> bool {
    exists|i: int| 0 <= i < s.len() && is_last_data(s[i])
}

/// The fragment number of a last-flagged data packet of the batch.
pub open spec fn batch_last_number(s: Seq<PacketModel>) -> u16 {
    data_number(s[choose|i: int| 0 <= i < s.len() && is_last_data(s[i])])
}

/// Whether the batch holds a data packet with this fragment number.
pub open spec fn has_data_number(s: Seq<PacketModel>, k: u16) -> bool {
    exists|i: int| 0 <= i < s.len() && s[i] is Data && data_number(s[i]) == k
}

/// The payload of a data packet of the batch with this fragment number.
pub open spec fn batch_payload(s: Seq<PacketModel>, k: u16) -> Seq<u8> {
    data_payload(s[choose|i: int| 0 <= i < s.len() && s[i] is Data && data_number(s[i]) == k])
}

/// Accumulates the packets of one file id and produces the file's bytes
/// once reassembly is complete.
pub struct PacketGroup {
    pub file_name: Option<String>,
    pub expected_packet_count: Option<usize>,
    pub packets: HashMap<u16, Vec<u8>>,
}

impl View for PacketGroup {
    type V = GroupModel;

    open spec fn view(&self) -> GroupModel {
        GroupModel {
            file_name: match self.file_name {
                Some(s) => Some(s@),
                None => None,
            },
            expected_packet_count: self.expected_packet_count,
            packets: self.packets@.map_values(|v: Vec<u8>| v@),
        }
    }
}

impl Default for PacketGroup {
    /// A state with no name, no expected count and no fragments.
    fn default() -> (r: Self)
        ensures
            r@ == empty_group(),
    {
        let r = PacketGroup {
            file_name: None,
            expected_packet_count: None,
            packets: HashMap::new(),
        };
        proof {
            assert(r@.packets =~= empty_group().packets);
        }
        r
    }
}

impl PacketGroup {
    /// Folds one packet into the state, as [`apply_packet`] describes.
    pub fn process_packet(&mut self, packet: Packet)
        ensures
            final(self)@ == apply_packet(old(self)@, packet@),
    {
        match packet {
            Packet::Header(header) => {
                self.process_header(header);
            }
            Packet::Data(data) => {
                self.process_data(data);
            }
        }
    }

    /// Records the file's name; a later header overwrites an earlier one.
    fn process_header(&mut self, header: Header)
        ensures
            final(self)@ == apply_packet(
                old(self)@,
                PacketModel::Header { file_id: header.file_id, file_name: header.file_name@ },
            ),
    {
        self.file_name = Some(header.file_name);
    }

    /// Stores the fragment's payload under its number and, when it is
    /// flagged as last, records the expected count.
    fn process_data(&mut self, data: Data)
        ensures
            final(self)@ == apply_packet(
                old(self)@,
                PacketModel::Data {
                    file_id: data.file_id,
                    packet_number: data.packet_number,
                    is_last_packet: data.is_last_packet,
                    payload: data.payload@,
                },
            ),
    {
        let Data { file_id: _, packet_number, is_last_packet, payload } = data;
        let ghost old_model = self@;
        self.packets.insert(packet_number, payload);
        if is_last_packet {
            self.expected_packet_count = Some(packet_number as usize + 1);
        }
        proof {
            assert(self@.packets =~= old_model.packets.insert(packet_number, payload@));
        }
    }

    /// Reports whether every expected fragment has been received, per
    /// [`group_complete`]: the stored count must match the expected one
    /// and every number below it must be covered.
    pub fn all_packets_received(&self) -> (r: bool)
        ensures
            r == group_complete(self@),
    {
        match self.expected_packet_count {
            None => false,
            Some(expected_count) => {
                proof {
                    assert(self@.packets.dom() =~= self.packets@.dom());
                }
                if self.packets.len() != expected_count {
                    return false;
                }
                // Fragment numbers are 16-bit, so a count beyond their
                // range asks for every key there is; the scan need not go
                // further than that.
                let bound: usize = if expected_count < 0x10000 {
                    expected_count
                } else {
                    0x10000
                };
                let mut k: usize = 0;
                while k < bound
                    invariant
                        k <= bound,
                        bound <= 0x10000,
                        bound <= expected_count,
                        expected_count < 0x10000 ==> bound == expected_count,
                        0x10000 <= expected_count ==> bound == 0x10000,
                        self@.expected_packet_count == Some(expected_count),
                        self@.packets.dom().len() == expected_count,
                        forall|j: u16| j < k ==> self@.packets.contains_key(j),
                    decreases bound - k,
                {
                    if !self.packets.contains_key(&(k as u16)) {
                        proof {
                            assert(self@.packets.dom() =~= self.packets@.dom());
                        }
                        return false;
                    }
                    k += 1;
                }
                true
            }
        }
    }

    /// Produces the file's bytes for this state: all stored fragments
    /// joined in ascending fragment-number order, once the checks of
    /// [`finalized`] pass.  Writing them to storage is the caller's
    /// business.
    pub fn write_file(&self) -> (r: Result<Vec<u8>, PacketGroupError>)
        ensures
            match r {
                Ok(bytes) => finalized(self@) is Ok && bytes@ == finalized(self@)->Ok_0,
                Err(e) => finalized(self@) == Err::<Seq<u8>, PacketGroupError>(e),
            },
    {
        if self.file_name.is_none() {
            return Err(PacketGroupError::MissingFileName);
        }

        let expected_count = match self.expected_packet_count {
            Some(c) => c,
            None => {
                return Err(PacketGroupError::MissingPacketCount);
            }
        };
        if expected_count > 0x10000 {
            return Err(PacketGroupError::MissingPacketCount);
        }

        let mut k: usize = 0;
        while k < expected_count
            invariant
                k <= expected_count,
                expected_count <= 0x10000,
                self@.file_name is Some,
                self@.expected_packet_count == Some(expected_count),
                first_missing_from(self@.packets, expected_count as int, 0)
                    == first_missing_from(self@.packets, expected_count as int, k as int),
            decreases expected_count - k,
        {
            if !self.packets.contains_key(&(k as u16)) {
                proof {
                    assert(self@.packets.dom() =~= self.packets@.dom());
                    assert(first_missing_from(self@.packets, expected_count as int, k as int)
                        == k as int);
                }
                return Err(PacketGroupError::MissingPacket(k as u16));
            }
            k += 1;
        }

        let mut out: Vec<u8> = Vec::new();
        let mut n: usize = 0;
        while n < 0x10000
            invariant
                n <= 0x10000,
                out@ == assembled_below(self@.packets, n as int),
            decreases 0x10000 - n,
        {
            match self.packets.get(&(n as u16)) {
                Some(payload) => {
                    out.extend_from_slice(payload.as_slice());
                }
                None => {}
            }
            n += 1;
        }
        Ok(out)
    }
}

/// Re-delivery is idempotent: applying a packet a second time leaves
/// the state exactly as the first application did.  In particular a
/// re-delivered data packet leaves the fragment count unchanged and the
/// stored payload equal to the most recently applied value.
pub proof fn lemma_apply_packet_idempotent(g: GroupModel, p: PacketModel)
    ensures
        apply_packet(apply_packet(g, p), p) == apply_packet(g, p),
        apply_packet(apply_packet(g, p), p).packets.dom().len() == apply_packet(
            g,
            p,
        ).packets.dom().len(),
        p is Data ==> apply_packet(apply_packet(g, p), p).packets[data_number(p)] == data_payload(
            p,
        ),
{
    assert(apply_packet(apply_packet(g, p), p).packets =~= apply_packet(g, p).packets);
    assert(apply_packet(apply_packet(g, p), p) =~= apply_packet(g, p));
}

/// After a batch, the group's name comes from the batch's header if it
/// has one, and is otherwise untouched.
proof fn lemma_apply_packets_file_name(g: GroupModel, s: Seq<PacketModel>)
    requires
        at_most_one_header(s),
    ensures
        apply_packets(g, s).file_name == if has_header(s) {
            Some(batch_header_name(s))
        } else {
            g.file_name
        },
    decreases s.len(),
{
    if s.len() > 0 {
        let p = s[0];
        let rest = s.drop_first();
        assert(forall|i: int| 0 <= i < rest.len() ==> rest[i] == s[i + 1]);
        lemma_apply_packets_file_name(apply_packet(g, p), rest);
        if has_header(rest) {
            let i = choose|i: int| 0 <= i < rest.len() && rest[i] is Header;
            assert(s[i + 1] is Header);
            assert(has_header(s));
            let ci = choose|i: int| 0 <= i < s.len() && s[i] is Header;
            assert(ci == i + 1);
            assert(batch_header_name(rest) == batch_header_name(s));
            assert(!(p is Header));
        } else if p is Header {
            assert(has_header(s));
            let ci = choose|i: int| 0 <= i < s.len() && s[i] is Header;
            assert(ci == 0);
            assert(batch_header_name(s) == header_name(p));
        } else {
            if has_header(s) {
                let ci = choose|i: int| 0 <= i < s.len() && s[i] is Header;
                assert(ci > 0);
                assert(rest[ci - 1] is Header);
                assert(false);
            }
        }
    }
}

/// After a batch, the group's expected count comes from the batch's
/// last-flagged fragment if it has one, and is otherwise untouched.
proof fn lemma_apply_packets_expected(g: GroupModel, s: Seq<PacketModel>)
    requires
        at_most_one_last(s),
    ensures
        apply_packets(g, s).expected_packet_count == if has_last(s) {
            Some((batch_last_number(s) + 1) as usize)
        } else {
            g.expected_packet_count
        },
    decreases s.len(),
{
    if s.len() > 0 {
        let p = s[0];
        let rest = s.drop_first();
        assert(forall|i: int| 0 <= i < rest.len() ==> rest[i] == s[i + 1]);
        lemma_apply_packets_expected(apply_packet(g, p), rest);
        if has_last(rest) {
            let i = choose|i: int| 0 <= i < rest.len() && is_last_data(rest[i]);
            assert(is_last_data(s[i + 1]));
            assert(has_last(s));
            let ci = choose|i: int| 0 <= i < s.len() && is_last_data(s[i]);
            assert(ci == i + 1);
            assert(batch_last_number(rest) == batch_last_number(s));
            assert(!is_last_data(p));
        } else if is_last_data(p) {
            assert(has_last(s));
            let ci = choose|i: int| 0 <= i < s.len() && is_last_data(s[i]);
            assert(ci == 0);
            assert(batch_last_number(s) == data_number(p));
        } else {
            if has_last(s) {
                let ci = choose|i: int| 0 <= i < s.len() && is_last_data(s[i]);
                assert(ci > 0);
                assert(is_last_data(rest[ci - 1]));
                assert(false);
            }
        }
    }
}

/// After a batch whose data packets carry distinct fragment numbers,
/// the group stores, for each number the batch covers, the payload of
/// the batch's one packet with that number; every other entry is
/// untouched.
proof fn lemma_apply_packets_fragments(g: GroupModel, s: Seq<PacketModel>)
    requires
        distinct_data_numbers(s),
    ensures
        forall|k: u16| #[trigger]
            apply_packets(g, s).packets.contains_key(k) <==> (has_data_number(s, k)
                || g.packets.contains_key(k)),
        forall|k: u16|
            has_data_number(s, k) ==> #[trigger] apply_packets(g, s).packets[k] == batch_payload(
                s,
                k,
            ),
        forall|k: u16|
            !has_data_number(s, k) && g.packets.contains_key(k) ==> #[trigger] apply_packets(
                g,
                s,
            ).packets[k] == g.packets[k],
    decreases s.len(),
{
    if s.len() > 0 {
        let p = s[0];
        let rest = s.drop_first();
        let gp = apply_packet(g, p);
        let r = apply_packets(g, s);
        assert(forall|i: int| 0 <= i < rest.len() ==> rest[i] == s[i + 1]);
        lemma_apply_packets_fragments(gp, rest);
        assert forall|k: u16| #[trigger]
            r.packets.contains_key(k) <==> (has_data_number(s, k) || g.packets.contains_key(
            k,
        )) by {
            if has_data_number(s, k) {
                let i = choose|i: int| 0 <= i < s.len() && s[i] is Data && data_number(s[i]) == k;
                if i == 0 {
                    assert(gp.packets.contains_key(k));
                } else {
                    assert(rest[i - 1] == s[i]);
                    assert(has_data_number(rest, k));
                }
            }
            if has_data_number(rest, k) {
                let i = choose|i: int|
                    0 <= i < rest.len() && rest[i] is Data && data_number(rest[i]) == k;
                assert(s[i + 1] == rest[i]);
                assert(has_data_number(s, k));
            }
        }
        assert forall|k: u16| has_data_number(s, k) implies #[trigger] r.packets[k]
            == batch_payload(s, k) by {
            let ci = choose|i: int| 0 <= i < s.len() && s[i] is Data && data_number(s[i]) == k;
            if ci == 0 {
                assert(!has_data_number(rest, k)) by {
                    if has_data_number(rest, k) {
                        let i = choose|i: int|
                            0 <= i < rest.len() && rest[i] is Data && data_number(rest[i]) == k;
                        assert(s[i + 1] == rest[i]);
                        assert(i + 1 == 0);
                    }
                }
                assert(gp.packets.contains_key(k) && gp.packets[k] == data_payload(p));
                assert(r.packets[k] == data_payload(p));
                assert(batch_payload(s, k) == data_payload(p));
            } else {
                assert(rest[ci - 1] == s[ci]);
                assert(has_data_number(rest, k));
                assert(r.packets[k] == batch_payload(rest, k));
                let cj = choose|j: int|
                    0 <= j < rest.len() && rest[j] is Data && data_number(rest[j]) == k;
                assert(s[cj + 1] == rest[cj]);
                assert(cj + 1 == ci);
                assert(batch_payload(rest, k) == batch_payload(s, k));
            }
        }
        assert forall|k: u16|
            !has_data_number(s, k) && g.packets.contains_key(k) implies #[trigger] r.packets[k]
            == g.packets[k] by {
            assert(!has_data_number(rest, k)) by {
                if has_data_number(rest, k) {
                    let i = choose|i: int|
                        0 <= i < rest.len() && rest[i] is Data && data_number(rest[i]) == k;
                    assert(s[i + 1] == rest[i]);
                    assert(has_data_number(s, k));
                }
            }
            if p is Data {
                assert(data_number(p) != k);
                assert(gp.packets.contains_key(k) && gp.packets[k] == g.packets[k]);
            } else {
                assert(gp.packets == g.packets);
            }
        }
    }
}

/// Two distinct positions holding the same element give that element a
/// multiplicity of at least two.
proof fn lemma_two_indices_count(s: Seq<PacketModel>, i: int, j: int)
    requires
        0 <= i < j < s.len(),
        s[i] == s[j],
    ensures
        s.to_multiset().count(s[i]) >= 2,
{
    broadcast use vstd::seq_lib::group_to_multiset_ensures, vstd::multiset::group_multiset_axioms;

    let x = s[i];
    let shorter = s.remove(i);
    assert(shorter.to_multiset() =~= s.to_multiset().remove(x));
    assert(shorter[j - 1] == x);
    assert(shorter.contains(x));
    assert(shorter.to_multiset().count(x) > 0);
}

/// A multiplicity of at least two puts the element at two distinct
/// positions.
proof fn lemma_count_two_indices(s: Seq<PacketModel>, x: PacketModel) -> (r: (int, int))
    requires
        s.to_multiset().count(x) >= 2,
    ensures
        0 <= r.0 < s.len() && 0 <= r.1 < s.len() && r.0 != r.1,
        s[r.0] == x && s[r.1] == x,
{
    broadcast use vstd::seq_lib::group_to_multiset_ensures, vstd::multiset::group_multiset_axioms;

    assert(s.contains(x));
    let a = choose|a: int| 0 <= a < s.len() && s[a] == x;
    let shorter = s.remove(a);
    assert(shorter.to_multiset() =~= s.to_multiset().remove(x));
    assert(shorter.to_multiset().count(x) > 0);
    assert(shorter.contains(x));
    let b0 = choose|b: int| 0 <= b < shorter.len() && shorter[b] == x;
    let b = if b0 < a {
        b0
    } else {
        b0 + 1
    };
    assert(s[b] == x);
    (a, b)
}

/// "At most one position satisfies this" carries over to any reordering
/// of the batch.
proof fn lemma_at_most_one_permutes(
    s1: Seq<PacketModel>,
    s2: Seq<PacketModel>,
    p: spec_fn(PacketModel) -> bool,
)
    requires
        s1.to_multiset() == s2.to_multiset(),
        forall|i: int, j: int|
            #![trigger s1[i], s1[j]]
            0 <= i < s1.len() && 0 <= j < s1.len() && p(s1[i]) && p(s1[j]) ==> i == j,
    ensures
        forall|i: int, j: int|
            #![trigger s2[i], s2[j]]
            0 <= i < s2.len() && 0 <= j < s2.len() && p(s2[i]) && p(s2[j]) ==> i == j,
{
    broadcast use vstd::seq_lib::to_multiset_contains;

    assert forall|i: int, j: int|
        #![trigger s2[i], s2[j]]
        0 <= i < s2.len() && 0 <= j < s2.len() && p(s2[i]) && p(s2[j]) implies i == j by {
        if i != j {
            let x = s2[i];
            let y = s2[j];
            if x == y {
                if i < j {
                    lemma_two_indices_count(s2, i, j);
                } else {
                    lemma_two_indices_count(s2, j, i);
                }
                let (a, b) = lemma_count_two_indices(s1, x);
                assert(false);
            } else {
                assert(s2.to_multiset().count(x) > 0);
                assert(s2.to_multiset().count(y) > 0);
                assert(s1.contains(x));
                assert(s1.contains(y));
                let a = choose|a: int| 0 <= a < s1.len() && s1[a] == x;
                let b = choose|b: int| 0 <= b < s1.len() && s1[b] == y;
                assert(false);
            }
        }
    }
}

/// A batch's sanity conditions carry over to any reordering of it.
pub proof fn lemma_batch_conditions_permute(s1: Seq<PacketModel>, s2: Seq<PacketModel>)
    requires
        s1.to_multiset() == s2.to_multiset(),
        distinct_data_numbers(s1),
        at_most_one_header(s1),
        at_most_one_last(s1),
    ensures
        distinct_data_numbers(s2),
        at_most_one_header(s2),
        at_most_one_last(s2),
{
    lemma_at_most_one_permutes(s1, s2, |q: PacketModel| q is Header);
    lemma_at_most_one_permutes(s1, s2, |q: PacketModel| is_last_data(q));
    assert forall|i: int, j: int|
        #![trigger s2[i], s2[j]]
        0 <= i < s2.len() && 0 <= j < s2.len() && s2[i] is Data && s2[j] is Data && data_number(
            s2[i],
        ) == data_number(s2[j]) implies i == j by {
        let k = data_number(s2[i]);
        lemma_at_most_one_permutes(s1, s2, |q: PacketModel| q is Data && data_number(q) == k);
    }
}

/// Order independence: delivering a sane batch of packets — no two data
/// packets sharing a fragment number, at most one header, at most one
/// fragment flagged as last — in any order leaves a group in the same
/// state, so finalizing it produces byte-identical output whatever the
/// arrival order was.
pub proof fn lemma_order_independent(g: GroupModel, s1: Seq<PacketModel>, s2: Seq<PacketModel>)
    requires
        s1.to_multiset() == s2.to_multiset(),
        distinct_data_numbers(s1),
        at_most_one_header(s1),
        at_most_one_last(s1),
    ensures
        apply_packets(g, s1) == apply_packets(g, s2),
        finalized(apply_packets(g, s1)) == finalized(apply_packets(g, s2)),
{
    broadcast use vstd::seq_lib::to_multiset_contains;

    lemma_batch_conditions_permute(s1, s2);
    let r1 = apply_packets(g, s1);
    let r2 = apply_packets(g, s2);
    lemma_apply_packets_file_name(g, s1);
    lemma_apply_packets_file_name(g, s2);
    lemma_apply_packets_expected(g, s1);
    lemma_apply_packets_expected(g, s2);
    lemma_apply_packets_fragments(g, s1);
    lemma_apply_packets_fragments(g, s2);

    assert forall|x: PacketModel| s1.contains(x) implies s2.contains(x) by {
        assert(s1.to_multiset().count(x) > 0);
        assert(s2.to_multiset().count(x) > 0);
    }
    assert forall|x: PacketModel| s2.contains(x) implies s1.contains(x) by {
        assert(s2.to_multiset().count(x) > 0);
        assert(s1.to_multiset().count(x) > 0);
    }

    assert(r1.file_name == r2.file_name) by {
        lemma_batch_header_transfer(s1, s2);
        lemma_batch_header_transfer(s2, s1);
    }
    assert(r1.expected_packet_count == r2.expected_packet_count) by {
        lemma_batch_last_transfer(s1, s2);
        lemma_batch_last_transfer(s2, s1);
    }
    assert(r1.packets =~= r2.packets) by {
        assert forall|k: u16| has_data_number(s1, k) implies has_data_number(s2, k)
            && batch_payload(s1, k) == batch_payload(s2, k) by {
            lemma_batch_payload_transfer(s1, s2, k);
        }
        assert forall|k: u16| has_data_number(s2, k) implies has_data_number(s1, k) by {
            lemma_batch_payload_transfer(s2, s1, k);
        }
    }
    assert(r1 =~= r2);
}

/// Carries a batch's header (if any) and its name over to any
/// reordering of the batch.
proof fn lemma_batch_header_transfer(s1: Seq<PacketModel>, s2: Seq<PacketModel>)
    requires
        forall|x: PacketModel| s1.contains(x) ==> s2.contains(x),
        at_most_one_header(s2),
    ensures
        has_header(s1) ==> has_header(s2) && batch_header_name(s1) == batch_header_name(s2),
{
    if has_header(s1) {
        let c1 = choose|i: int| 0 <= i < s1.len() && s1[i] is Header;
        let x = s1[c1];
        assert(s1.contains(x));
        assert(s2.contains(x));
        let j = choose|j: int| 0 <= j < s2.len() && s2[j] == x;
        assert(has_header(s2));
        let c2 = choose|i: int| 0 <= i < s2.len() && s2[i] is Header;
        assert(j == c2);
    }
}

/// Carries a batch's last-flagged fragment (if any) and its number over
/// to any reordering of the batch.
proof fn lemma_batch_last_transfer(s1: Seq<PacketModel>, s2: Seq<PacketModel>)
    requires
        forall|x: PacketModel| s1.contains(x) ==> s2.contains(x),
        at_most_one_last(s2),
    ensures
        has_last(s1) ==> has_last(s2) && batch_last_number(s1) == batch_last_number(s2),
{
    if has_last(s1) {
        let c1 = choose|i: int| 0 <= i < s1.len() && is_last_data(s1[i]);
        let x = s1[c1];
        assert(s1.contains(x));
        assert(s2.contains(x));
        let j = choose|j: int| 0 <= j < s2.len() && s2[j] == x;
        assert(has_last(s2));
        let c2 = choose|i: int| 0 <= i < s2.len() && is_last_data(s2[i]);
        assert(j == c2);
    }
}

/// Carries a batch's fragment with a given number (if any) and its
/// payload over to any reordering of the batch.
proof fn lemma_batch_payload_transfer(s1: Seq<PacketModel>, s2: Seq<PacketModel>, k: u16)
    requires
        forall|x: PacketModel| s1.contains(x) ==> s2.contains(x),
        distinct_data_numbers(s2),
    ensures
        has_data_number(s1, k) ==> has_data_number(s2, k) && batch_payload(s1, k) == batch_payload(
            s2,
            k,
        ),
{
    if has_data_number(s1, k) {
        let c1 = choose|i: int| 0 <= i < s1.len() && s1[i] is Data && data_number(s1[i]) == k;
        let x = s1[c1];
        assert(s1.contains(x));
        assert(s2.contains(x));
        let j = choose|j: int| 0 <= j < s2.len() && s2[j] == x;
        assert(has_data_number(s2, k));
        let c2 = choose|i: int| 0 <= i < s2.len() && s2[i] is Data && data_number(s2[i]) == k;
        assert(j == c2);
    }
}

} // verus!
