//! The client side of the protocol: one connection to the server, and the
//! sync procedure that pushes local changes and optionally pulls the
//! authoritative inventory.

use vstd::prelude::*;

verus! {

use crate::codec::{
    dec_u32, enc_bytes, enc_u32, encode_item, decode_inv, inv_encodable, item_encodable,
    spec_enc_bytes, spec_enc_inv, spec_enc_item, spec_enc_u32, spec_u32_from_be_bytes,
    string_encodable,
};
use crate::inv::{Id, Inv, InvV, Item, keys_unique};
use crate::protocol::{
    CmdCode, IoErr, Release, ServerErr, Transport, expect_code, send_code, spec_code_byte,
    spec_compatible, spec_current_release, spec_handshake,
};
use crate::tracker::{InvChange, LocalInv, TrackerV};

/// The request frame that pushes one item: the command code, the identifier,
/// then the length-prefixed item blob.
pub open spec fn spec_insert_frame(id: Id, item: crate::inv::ItemV) -> Seq<u8> {
    seq![spec_code_byte(CmdCode::InsertItem)] + (spec_enc_u32(id.0) + spec_enc_bytes(
        spec_enc_item(item),
    ))
}

/// The request frame that deletes one item: the command code, then the
/// identifier.
pub open spec fn spec_remove_frame(id: Id) -> Seq<u8> {
    seq![spec_code_byte(CmdCode::RemoveItem)] + spec_enc_u32(id.0)
}

/// What one drained change puts on the wire: an add or edit pushes the
/// stored item, unless it was deleted again before the sync and so has
/// nothing to push; a delete pushes the identifier.
pub open spec fn spec_push_frame(c: InvChange, items: Map<Id, crate::inv::ItemV>) -> Seq<u8> {
    match c {
        InvChange::AddedItem(id) | InvChange::ModifiedItem(id) => if items.dom().contains(id) {
            spec_insert_frame(id, items[id])
        } else {
            Seq::empty()
        },
        InvChange::DeletedItem(id) => spec_remove_frame(id),
    }
}

/// What a drained change record puts on the wire, in drain order.
pub open spec fn spec_push_frames(cs: Seq<InvChange>, items: Map<Id, crate::inv::ItemV>) -> Seq<u8>
    decreases cs.len(),
{
    if cs.len() == 0 {
        Seq::empty()
    } else {
        spec_push_frames(cs.drop_last(), items) + spec_push_frame(cs.last(), items)
    }
}

/// The client's end of one open connection to the server; stateless beyond
/// the stream itself.
pub struct ServerConn<T> {
    io: T,
}

impl<T: Transport> ServerConn<T> {
    /// The underlying stream, for stating what this connection has exchanged.
    pub closed spec fn stream(self) -> T {
        self.io
    }

    /// The underlying stream itself, for the caller that owns the transport.
    pub fn stream_mut(&mut self) -> (r: &mut T)
        ensures
            *r == old(self).stream(),
            final(self).stream() == *final(r),
    {
        &mut self.io
    }

    /// Opens the connection: writes the handshake (this build's release
    /// triple and the length-prefixed name) and waits for the server's
    /// connection acknowledgment.
    pub fn connect(io: T, name: &str) -> (r: Result<ServerConn<T>, ServerErr>)
        ensures
            !string_encodable(name@) ==> r is Err,
            r matches Ok(conn) ==> {
                &&& conn.stream().outbuf() == io.outbuf() + spec_handshake(
                    spec_current_release(),
                    name@,
                )
                &&& io.inbuf().len() >= 1
                &&& io.inbuf()[0] == spec_code_byte(CmdCode::ConnectionSuccessfull)
                &&& conn.stream().inbuf() == io.inbuf().skip(1)
            },
    {
        let mut io = io;
        let rel = Release::current().as_bytes();
        let mut frame: Vec<u8> = Vec::new();
        frame.push(rel[0]);
        frame.push(rel[1]);
        frame.push(rel[2]);
        if !enc_bytes(&mut frame, name.as_bytes()) {
            return Err(ServerErr::OtherIo(IoErr::InvalidData));
        }
        proof {
            assert(frame@ =~= spec_handshake(spec_current_release(), name@));
        }
        match io.write_all(frame.as_slice()) {
            Ok(_) => (),
            Err(e) => {
                return Err(ServerErr::OtherIo(e));
            },
        }
        match expect_code(&mut io, CmdCode::ConnectionSuccessfull) {
            Ok(_) => (),
            Err(e) => {
                return Err(ServerErr::OtherIo(e));
            },
        }
        Ok(ServerConn { io })
    }

    /// Asks the server which release it speaks.
    pub fn get_release(&mut self) -> (r: Result<Release, ServerErr>)
        ensures
            r matches Err(e) ==> e is OtherIo,
            r matches Ok(rel) ==> {
                &&& final(self).stream().outbuf() == old(self).stream().outbuf() + seq![
                    spec_code_byte(CmdCode::GetRelease),
                ]
                &&& old(self).stream().inbuf().len() >= 3
                &&& rel == Release(
                    old(self).stream().inbuf()[0],
                    old(self).stream().inbuf()[1],
                    old(self).stream().inbuf()[2],
                )
                &&& final(self).stream().inbuf() == old(self).stream().inbuf().skip(3)
            },
    {
        match send_code(&mut self.io, CmdCode::GetRelease) {
            Ok(_) => (),
            Err(e) => {
                return Err(ServerErr::OtherIo(e));
            },
        }
        let buf = match self.io.read_exact(3) {
            Ok(b) => b,
            Err(e) => {
                return Err(ServerErr::OtherIo(e));
            },
        };
        Ok(Release(buf[0], buf[1], buf[2]))
    }

    /// Pulls the whole inventory. The pull is gated on release compatibility:
    /// the server's release must map to this build's data version, else the
    /// pull aborts with the incompatibility error and the inventory request
    /// is never sent.
    pub fn get_inv(&mut self) -> (r: Result<Inv, ServerErr>)
        ensures
            ({
                let ib = old(self).stream().inbuf();
                r matches Ok(inv2) ==> {
                    &&& ib.len() >= 3
                    &&& spec_compatible(Release(ib[0], ib[1], ib[2]))
                    &&& final(self).stream().outbuf() == old(self).stream().outbuf() + seq![
                        spec_code_byte(CmdCode::GetRelease),
                        spec_code_byte(CmdCode::GetInv),
                    ]
                    &&& {
                        let rest = ib.skip(3);
                        let blob_len = spec_u32_from_be_bytes(rest.take(4)) as int;
                        &&& rest.len() >= 4 + blob_len
                        &&& final(self).stream().inbuf() == rest.skip(4 + blob_len)
                        &&& inv_encodable(inv2@)
                        &&& keys_unique(inv2@.items)
                        &&& rest.subrange(4, 4 + blob_len) == spec_enc_inv(inv2@)
                        &&& forall|v: InvV|
                            (inv_encodable(v) && keys_unique(v.items) && rest.subrange(
                                4,
                                4 + blob_len,
                            ) == spec_enc_inv(v)) ==> (inv2@.platform_names == v.platform_names
                                && inv2@.items == v.items)
                    }
                }
            }),
            ({
                let ib = old(self).stream().inbuf();
                r matches Err(ServerErr::IncompatibleRelease(rel)) ==> {
                    &&& ib.len() >= 3
                    &&& rel == Release(ib[0], ib[1], ib[2])
                    &&& !spec_compatible(rel)
                    &&& final(self).stream().outbuf() == old(self).stream().outbuf() + seq![
                        spec_code_byte(CmdCode::GetRelease),
                    ]
                }
            }),
    {
        let ghost ib = self.stream().inbuf();
        let release = match self.get_release() {
            Ok(rel) => rel,
            Err(e) => {
                return Err(e);
            },
        };
        if !release.compatible() {
            return Err(ServerErr::IncompatibleRelease(release));
        }
        match send_code(&mut self.io, CmdCode::GetInv) {
            Ok(_) => (),
            Err(e) => {
                return Err(ServerErr::OtherIo(e));
            },
        }
        proof {
            assert(seq![spec_code_byte(CmdCode::GetRelease)] + seq![
                spec_code_byte(CmdCode::GetInv),
            ] =~= seq![spec_code_byte(CmdCode::GetRelease), spec_code_byte(CmdCode::GetInv)]);
        }
        let len_bytes = match self.io.read_exact(4) {
            Ok(b) => b,
            Err(e) => {
                return Err(ServerErr::OtherIo(e));
            },
        };
        let (blob_len, _) = match dec_u32(&len_bytes, 0) {
            Some(v) => v,
            None => {
                return Err(ServerErr::OtherIo(IoErr::InvalidData));
            },
        };
        proof {
            assert(len_bytes@.subrange(0, 4) =~= ib.skip(3).take(4));
        }
        let blob = match self.io.read_exact(blob_len as usize) {
            Ok(b) => b,
            Err(e) => {
                return Err(ServerErr::OtherIo(e));
            },
        };
        proof {
            assert(blob@ =~= ib.skip(3).subrange(4, 4 + blob_len as int));
            assert(final(self).stream().inbuf() =~= ib.skip(3).skip(4 + blob_len as int));
        }
        match decode_inv(&blob) {
            Some(inv) => Ok(inv),
            None => Err(ServerErr::OtherIo(IoErr::InvalidData)),
        }
    }

    /// Pushes one item to the server and waits for the operation
    /// acknowledgment.
    pub fn insert_item(&mut self, id: Id, item: &Item) -> (r: Result<(), IoErr>)
        ensures
            r matches Ok(_) ==> {
                &&& item_encodable(item@)
                &&& final(self).stream().outbuf() == old(self).stream().outbuf()
                    + spec_insert_frame(id, item@)
                &&& old(self).stream().inbuf().len() >= 1
                &&& old(self).stream().inbuf()[0] == spec_code_byte(CmdCode::OperationSuccessfull)
                &&& final(self).stream().inbuf() == old(self).stream().inbuf().skip(1)
            },
            !item_encodable(item@) ==> r is Err,
    {
        let blob = match encode_item(item) {
            Some(b) => b,
            None => {
                return Err(IoErr::InvalidData);
            },
        };
        let mut frame: Vec<u8> = Vec::new();
        frame.push(CmdCode::InsertItem.as_u8());
        enc_u32(&mut frame, id.0);
        if !enc_bytes(&mut frame, blob.as_slice()) {
            return Err(IoErr::InvalidData);
        }
        proof {
            assert(frame@ =~= spec_insert_frame(id, item@));
        }
        match self.io.write_all(frame.as_slice()) {
            Ok(_) => (),
            Err(e) => {
                return Err(e);
            },
        }
        expect_code(&mut self.io, CmdCode::OperationSuccessfull)
    }

    /// Asks the server to delete one item and waits for the operation
    /// acknowledgment.
    pub fn remove_item(&mut self, id: Id) -> (r: Result<(), IoErr>)
        ensures
            r matches Ok(_) ==> {
                &&& final(self).stream().outbuf() == old(self).stream().outbuf()
                    + spec_remove_frame(id)
                &&& old(self).stream().inbuf().len() >= 1
                &&& old(self).stream().inbuf()[0] == spec_code_byte(CmdCode::OperationSuccessfull)
                &&& final(self).stream().inbuf() == old(self).stream().inbuf().skip(1)
            },
    {
        let mut frame: Vec<u8> = Vec::new();
        frame.push(CmdCode::RemoveItem.as_u8());
        enc_u32(&mut frame, id.0);
        proof {
            assert(frame@ =~= spec_remove_frame(id));
        }
        match self.io.write_all(frame.as_slice()) {
            Ok(_) => (),
            Err(e) => {
                return Err(e);
            },
        }
        expect_code(&mut self.io, CmdCode::OperationSuccessfull)
    }

    /// The client-driven sync procedure: drains the local change record,
    /// pushes every recorded add, edit, and delete, then — if a pull was
    /// requested — checks release compatibility, pulls the whole inventory,
    /// and replaces local state wholesale. The drain happens first, so the
    /// change record is empty afterwards whether or not the sync succeeded;
    /// with no pull requested the local items are left untouched. An add
    /// whose item was deleted again before the sync is pushed only as the
    /// recorded deletion. On success the stream carries every push frame in
    /// drain order, and only then — so the client's own edits precede what it
    /// reads back — the two pull requests, if a pull was asked for.
    pub fn sync(&mut self, local: &mut LocalInv, download: bool) -> (r: Result<(), ServerErr>)
        ensures
            final(local)@.added == Set::<Id>::empty(),
            final(local)@.modified == Set::<Id>::empty(),
            final(local)@.deleted == Set::<Id>::empty(),
            final(local).pending_changes() == Seq::<InvChange>::empty(),
            !download ==> final(local)@.items == old(local)@.items && final(local)@.platform_names
                == old(local)@.platform_names,
            r is Err ==> final(local)@.items == old(local)@.items && final(local)@.platform_names
                == old(local)@.platform_names,
            old(local).pending_changes().len() == 0 && !download ==> r is Ok,
            r is Ok ==> final(self).stream().outbuf() == old(self).stream().outbuf()
                + spec_push_frames(old(local).pending_changes(), old(local)@.items) + (if download {
                seq![spec_code_byte(CmdCode::GetRelease), spec_code_byte(CmdCode::GetInv)]
            } else {
                Seq::<u8>::empty()
            }),
            r is Ok && download ==> exists|k: int|
                #![trigger old(self).stream().inbuf().skip(k)]
                {
                    let ib = old(self).stream().inbuf().skip(k);
                    &&& 0 <= k <= old(self).stream().inbuf().len()
                    &&& ib.len() >= 3
                    &&& spec_compatible(Release(ib[0], ib[1], ib[2]))
                    &&& {
                        let rest = ib.skip(3);
                        let blob_len = spec_u32_from_be_bytes(rest.take(4)) as int;
                        &&& rest.len() >= 4 + blob_len
                        &&& exists|v: InvV|
                            {
                                &&& inv_encodable(v)
                                &&& keys_unique(v.items)
                                &&& rest.subrange(4, 4 + blob_len) == #[trigger] spec_enc_inv(v)
                                &&& final(local)@.platform_names == v.platform_names
                                &&& final(local)@.items == crate::inv::map_of(v.items)
                            }
                    }
                },
    {
        let ghost base = self.stream().outbuf();
        let ghost inbase = self.stream().inbuf();
        let ghost items0 = local@.items;
        let ghost mut consumed: int = 0;
        let changes = local.consume_changes();
        let mut i: usize = 0;
        while i < changes.len()
            invariant
                i <= changes@.len(),
                changes@ == old(local).pending_changes(),
                items0 == old(local)@.items,
                base == old(self).stream().outbuf(),
                inbase == old(self).stream().inbuf(),
                0 <= consumed <= inbase.len(),
                self.stream().inbuf() == inbase.skip(consumed),
                local@ == (TrackerV {
                    added: Set::<Id>::empty(),
                    modified: Set::<Id>::empty(),
                    deleted: Set::<Id>::empty(),
                    ..old(local)@
                }),
                local.pending_changes() == Seq::<InvChange>::empty(),
                self.stream().outbuf() == base + spec_push_frames(
                    changes@.take(i as int),
                    items0,
                ),
            decreases changes@.len() - i,
        {
            let ghost sent = spec_push_frames(changes@.take(i as int), items0);
            proof {
                assert(changes@.take(i as int + 1).drop_last() =~= changes@.take(i as int));
            }
            let change = changes[i];
            match change {
                InvChange::AddedItem(id) | InvChange::ModifiedItem(id) => {
                    match local.get_item(&id) {
                        Some(item) => {
                            match self.insert_item(id, item) {
                                Ok(_) => (),
                                Err(e) => {
                                    return Err(ServerErr::OtherIo(e));
                                },
                            }
                            proof {
                                consumed = consumed + 1;
                                assert(self.stream().inbuf() =~= inbase.skip(consumed));
                                assert(self.stream().outbuf() =~= base + spec_push_frames(
                                    changes@.take(i as int + 1),
                                    items0,
                                ));
                            }
                        },
                        // The id was added and then removed again before this
                        // sync: there is nothing to push, and its deletion
                        // intent is recorded separately.
                        None => {
                            proof {
                                assert(self.stream().outbuf() =~= base + spec_push_frames(
                                    changes@.take(i as int + 1),
                                    items0,
                                ));
                            }
                        },
                    }
                },
                InvChange::DeletedItem(id) => {
                    match self.remove_item(id) {
                        Ok(_) => (),
                        Err(e) => {
                            return Err(ServerErr::OtherIo(e));
                        },
                    }
                    proof {
                        consumed = consumed + 1;
                        assert(self.stream().inbuf() =~= inbase.skip(consumed));
                        assert(self.stream().outbuf() =~= base + spec_push_frames(
                            changes@.take(i as int + 1),
                            items0,
                        ));
                    }
                },
            }
            i = i + 1;
        }
        proof {
            assert(changes@.take(changes@.len() as int) =~= changes@);
        }
        if download {
            let ghost pre_pull = self.stream().inbuf();
            let server_inv = match self.get_inv() {
                Ok(inv) => inv,
                Err(e) => {
                    return Err(e);
                },
            };
            let ghost pulled = server_inv@;
            local.replace_all(server_inv);
            proof {
                assert(self.stream().outbuf() =~= base + spec_push_frames(changes@, items0) + seq![
                    spec_code_byte(CmdCode::GetRelease),
                    spec_code_byte(CmdCode::GetInv),
                ]);
                assert(pre_pull == inbase.skip(consumed));
                assert(local@.items == crate::inv::map_of(pulled.items));
                assert({
                    let ib = inbase.skip(consumed);
                    let rest = ib.skip(3);
                    let blob_len = spec_u32_from_be_bytes(rest.take(4)) as int;
                    &&& 0 <= consumed <= inbase.len()
                    &&& ib.len() >= 3
                    &&& spec_compatible(Release(ib[0], ib[1], ib[2]))
                    &&& rest.len() >= 4 + blob_len
                    &&& inv_encodable(pulled)
                    &&& keys_unique(pulled.items)
                    &&& rest.subrange(4, 4 + blob_len) == spec_enc_inv(pulled)
                    &&& local@.platform_names == pulled.platform_names
                    &&& local@.items == crate::inv::map_of(pulled.items)
                });
            }
            return Ok(());
        }
        proof {
            assert(self.stream().outbuf() =~= base + spec_push_frames(changes@, items0) + Seq::<
                u8,
            >::empty());
        }
        Ok(())
    }
}

} // verus!
