//! The transfer multiplexer: one reassembly state per file id.

use vstd::prelude::*;
use std::collections::HashMap;

use crate::errors::PacketGroupError;
use crate::packet::{packet_file_id, Packet, PacketModel};
use crate::packet_group::{
    apply_packet, empty_group, finalized, group_complete, GroupModel, PacketGroup,
};

verus! {

broadcast use vstd::std_specs::hash::group_hash_axioms, vstd::seq_lib::lemma_seq_contains_after_push;

/// Pushing an element a sequence lacks keeps its entries distinct.
proof fn lemma_push_no_duplicates(s: Seq<u8>, v: u8)
    requires
        s.no_duplicates(),
        !s.contains(v),
    ensures
        s.push(v).no_duplicates(),
{
    assert forall|i: int, j: int|
        0 <= i < s.push(v).len() && 0 <= j < s.push(v).len() && i != j implies s.push(v)[i]
        != s.push(v)[j] by {
        if i == s.len() as int {
            if j < s.len() && s[j] == v {
                assert(s.contains(v));
            }
        } else if j == s.len() as int {
            if i < s.len() && s[i] == v {
                assert(s.contains(v));
            }
        }
    }
}

/// Every transfer seen so far is named and complete, and at least one
/// transfer has been seen: a session that never received a packet is not
/// done.
pub open spec fn all_received(m: Map<u8, GroupModel>) -> bool {
    !m.is_empty() && forall|id: u8| #[trigger]
        m.contains_key(id) ==> group_complete(m[id]) && m[id].file_name is Some
}

/// How one packet changes the table: it reaches the state for its file
/// id, which is created empty on first sight.
pub open spec fn route_packet(m: Map<u8, GroupModel>, p: PacketModel) -> Map<u8, GroupModel> {
    let id = packet_file_id(p);
    let g = if m.contains_key(id) {
        m[id]
    } else {
        empty_group()
    };
    m.insert(id, apply_packet(g, p))
}

/// Routes incoming packets to the reassembly state for their file id and
/// reports when every transfer is complete.  Its ghost value is the map
/// from file id to the state's ghost value; `id_order` lists the ids in
/// first-sight order, which is the order finalized artifacts come out in.
pub struct FileManager {
    files: HashMap<u8, PacketGroup>,
    ids: Vec<u8>,
}

impl View for FileManager {
    type V = Map<u8, GroupModel>;

    closed spec fn view(&self) -> Map<u8, GroupModel> {
        self.files@.map_values(|g: PacketGroup| g@)
    }
}

impl Default for FileManager {
    /// A table with no transfers.
    fn default() -> (r: Self)
        ensures
            r@ == Map::<u8, GroupModel>::empty(),
            r.id_order() == Seq::<u8>::empty(),
            r.wf(),
    {
        let r = FileManager { files: HashMap::new(), ids: Vec::new() };
        proof {
            assert(r@ =~= Map::<u8, GroupModel>::empty());
        }
        r
    }
}

impl FileManager {
    /// The file ids seen so far, in first-sight order.
    pub closed spec fn id_order(&self) -> Seq<u8> {
        self.ids@
    }

    /// The id list carries each id exactly once and matches the table's
    /// keys; constructors establish this and every method keeps it.
    pub closed spec fn wf(&self) -> bool {
        self.ids@.no_duplicates() && (forall|id: u8|
            #[trigger] self@.contains_key(id) <==> self.ids@.contains(id))
    }

    /// The table's keys are exactly the ids of `id_order`; in
    /// particular the table is finite, so routing a packet for a fresh
    /// id grows it by exactly one entry.
    pub proof fn lemma_id_order(&self)
        requires
            self.wf(),
        ensures
            self.id_order().no_duplicates(),
            forall|id: u8| #[trigger] self@.contains_key(id) <==> self.id_order().contains(id),
            self@.dom().finite(),
            self@.dom() == self.id_order().to_set(),
    {
        broadcast use vstd::seq_lib::seq_to_set_is_finite;

        assert(self@.dom() =~= self.ids@.to_set());
    }

    /// Reports whether at least one transfer has been seen and every
    /// transfer seen is named and complete.
    pub fn received_all_packets(&self) -> (r: bool)
        requires
            self.wf(),
        ensures
            r == all_received(self@),
    {
        if self.files.is_empty() {
            proof {
                assert(self@.dom() =~= self.files@.dom());
            }
            return false;
        }

        let mut i: usize = 0;
        while i < self.ids.len()
            invariant
                self.wf(),
                i <= self.ids@.len(),
                forall|j: int| 0 <= j < i ==> {
                    let g = self@[#[trigger] self.ids@[j]];
                    group_complete(g) && g.file_name is Some
                },
            decreases self.ids@.len() - i,
        {
            let id = self.ids[i];
            proof {
                assert(self.ids@.contains(self.ids@[i as int]));
                assert(self@.dom() =~= self.files@.dom());
            }
            let group = match self.files.get(&id) {
                Some(g) => g,
                None => {
                    proof {
                        assert(false);
                    }
                    return false;
                }
            };
            if !group.all_packets_received() {
                return false;
            }
            if group.file_name.is_none() {
                return false;
            }
            i += 1;
        }

        proof {
            assert(self@.dom() =~= self.files@.dom());
            assert forall|id: u8| #[trigger]
                self@.contains_key(id) implies group_complete(self@[id])
                && self@[id].file_name is Some by {
                let j = choose|j: int| 0 <= j < self.ids@.len() && self.ids@[j] == id;
            }
        }
        true
    }

    /// Routes one packet to the reassembly state for its file id,
    /// creating that state on first sight of the id.
    pub fn process_packet(&mut self, packet: Packet)
        requires
            old(self).wf(),
        ensures
            final(self).wf(),
            final(self)@ == route_packet(old(self)@, packet@),
            final(self).id_order() == if old(self)@.contains_key(packet_file_id(packet@)) {
                old(self).id_order()
            } else {
                old(self).id_order().push(packet_file_id(packet@))
            },
    {
        let file_id = match &packet {
            Packet::Header(header) => header.file_id,
            Packet::Data(data) => data.file_id,
        };

        proof {
            assert(self@.dom() =~= self.files@.dom());
        }
        if !self.files.contains_key(&file_id) {
            self.ids.push(file_id);
        }

        let mut group = match self.files.remove(&file_id) {
            Some(g) => g,
            None => PacketGroup::default(),
        };
        group.process_packet(packet);
        self.files.insert(file_id, group);

        proof {
            assert(self@ =~= route_packet(old(self)@, packet@));
            if !old(self)@.contains_key(file_id) {
                lemma_push_no_duplicates(old(self).ids@, file_id);
            }
        }
    }

    /// Finalizes every transfer: on success, the list of artifacts, one
    /// `(file name, reassembled bytes)` pair per file id in first-sight
    /// order.  Stops at the first state whose checks fail and surfaces
    /// that state's error; nothing is handed out then.
    pub fn write_all_files(&self) -> (r: Result<Vec<(String, Vec<u8>)>, PacketGroupError>)
        requires
            self.wf(),
        ensures
            match r {
                Ok(artifacts) => artifacts@.len() == self.id_order().len() && forall|j: int|
                    0 <= j < artifacts@.len() ==> {
                        let g = self@[#[trigger] self.id_order()[j]];
                        finalized(g) is Ok && g.file_name is Some && artifacts@[j].0@
                            == g.file_name->0 && artifacts@[j].1@ == finalized(g)->Ok_0
                    },
                Err(e) => exists|j: int|
                    0 <= j < self.id_order().len() && #[trigger] finalized(
                        self@[self.id_order()[j]],
                    ) == Err::<Seq<u8>, PacketGroupError>(e) && forall|j2: int|
                        0 <= j2 < j ==> finalized(self@[self.id_order()[j2]]) is Ok,
            },
    {
        let mut artifacts: Vec<(String, Vec<u8>)> = Vec::new();
        let mut i: usize = 0;
        while i < self.ids.len()
            invariant
                self.wf(),
                i <= self.ids@.len(),
                artifacts@.len() == i,
                forall|j: int| 0 <= j < i ==> {
                    let g = self@[#[trigger] self.ids@[j]];
                    finalized(g) is Ok && g.file_name is Some && artifacts@[j].0@
                        == g.file_name->0 && artifacts@[j].1@ == finalized(g)->Ok_0
                },
            decreases self.ids@.len() - i,
        {
            let id = self.ids[i];
            proof {
                assert(self.ids@.contains(self.ids@[i as int]));
                assert(self@.dom() =~= self.files@.dom());
            }
            let group = match self.files.get(&id) {
                Some(g) => g,
                None => {
                    proof {
                        assert(false);
                    }
                    return Err(PacketGroupError::MissingFileName);
                }
            };
            match group.write_file() {
                Ok(bytes) => {
                    let name = match &group.file_name {
                        Some(n) => n.clone(),
                        None => {
                            proof {
                                assert(false);
                            }
                            return Err(PacketGroupError::MissingFileName);
                        }
                    };
                    artifacts.push((name, bytes));
                }
                Err(e) => {
                    return Err(e);
                }
            }
            i += 1;
        }
        Ok(artifacts)
    }

    /// Replaces the reassembly state stored for this file id, creating
    /// the table entry if the id is new.
    pub fn insert_packet_group(&mut self, file_id: u8, packet_group: PacketGroup)
        requires
            old(self).wf(),
        ensures
            final(self).wf(),
            final(self)@ == old(self)@.insert(file_id, packet_group@),
            final(self).id_order() == if old(self)@.contains_key(file_id) {
                old(self).id_order()
            } else {
                old(self).id_order().push(file_id)
            },
    {
        proof {
            assert(self@.dom() =~= self.files@.dom());
        }
        if !self.files.contains_key(&file_id) {
            self.ids.push(file_id);
        }
        self.files.insert(file_id, packet_group);
        proof {
            assert(self@ =~= old(self)@.insert(file_id, packet_group@));
            if !old(self)@.contains_key(file_id) {
                lemma_push_no_duplicates(old(self).ids@, file_id);
            }
        }
    }

    /// The reassembly state stored for this file id, if the id has been
    /// seen.
    pub fn get_packet_group(&self, file_id: u8) -> (r: Option<&PacketGroup>)
        ensures
            match r {
                Some(g) => self@.contains_key(file_id) && g@ == self@[file_id],
                None => !self@.contains_key(file_id),
            },
    {
        proof {
            assert(self@.dom() =~= self.files@.dom());
        }
        self.files.get(&file_id)
    }
}

} // verus!
