//! The server side of the protocol: the host that owns the canonical
//! inventory and the connected-client table, the per-command dispatch, and
//! the polling pass over all clients.

use vstd::prelude::*;

verus! {

use vstd::utf8::{decode_utf8, valid_utf8};
use crate::codec::{
    dec_u32, decode_item, enc_bytes, encode_inv, inv_encodable, item_encodable, spec_enc_bytes,
    spec_enc_inv, spec_enc_item, spec_u32_from_be_bytes,
};
use crate::ext::{random_u32, string_from_utf8_lossy};
use crate::inv::{Id, Inv, ItemV};
use crate::protocol::{
    CmdCode, IoErr, PollOutcome, Release, Transport, send_code, spec_code_byte, spec_code_of,
    spec_current_release,
};

/// Server-assigned random handle for one live connection; not persisted
/// across reconnects.
pub type ClientId = u32;

/// Every row of `a` keeps the identifier and name of some row of `b`: the
/// table shrank, nothing in it was invented.
pub open spec fn clients_subset_of<C>(a: Seq<ClientEntry<C>>, b: Seq<ClientEntry<C>>) -> bool {
    forall|i: int|
        0 <= i < a.len() ==> exists|j: int|
            0 <= j < b.len() && (#[trigger] a[i]).id == (#[trigger] b[j]).id && a[i].name
                == b[j].name
}

/// What one polling step did with one client: the poll outcome is consistent
/// with the row's stream, the row is dropped exactly when its stream came
/// back closed or failed, a row with nothing pending keeps its stream
/// untouched, a pending byte is consumed, and a byte that spells a known
/// code steps the stream and the inventory by [`spec_dispatch`] for that
/// code.
pub open spec fn spec_client_pass<C: Transport>(
    e0: ClientEntry<C>,
    outcome: PollOutcome,
    keep: Option<ClientEntry<C>>,
    inv0: Inv,
    inv1: Inv,
) -> bool {
    &&& (match outcome {
        PollOutcome::Byte(b) => e0.conn.inbuf().len() > 0 && b == e0.conn.inbuf()[0],
        PollOutcome::Closed | PollOutcome::WouldBlock => e0.conn.inbuf().len() == 0,
        PollOutcome::Failed => true,
    })
    &&& (match keep {
        None => (outcome is Closed || outcome is Failed) && inv1 == inv0,
        Some(e1) => {
            &&& e1.id == e0.id
            &&& e1.name == e0.name
            &&& (match outcome {
                PollOutcome::Closed | PollOutcome::Failed => false,
                PollOutcome::WouldBlock => inv1 == inv0 && e1.conn.inbuf() == e0.conn.inbuf()
                    && e1.conn.outbuf() == e0.conn.outbuf(),
                PollOutcome::Byte(b) => match spec_code_of(b) {
                    None => inv1 == inv0 && e1.conn.inbuf() == e0.conn.inbuf().skip(1)
                        && e1.conn.outbuf() == e0.conn.outbuf(),
                    Some(cmd) => exists|mid: C, res: Result<(), IoErr>|
                        {
                            &&& #[trigger] spec_dispatch(cmd, inv0, mid, inv1, e1.conn, res)
                            &&& mid.inbuf() == e0.conn.inbuf().skip(1)
                            &&& mid.outbuf() == e0.conn.outbuf()
                        },
                },
            })
        },
    })
}

/// The rows a polling pass kept, in the order it processed them.
pub open spec fn kept_rows<C>(keeps: Seq<Option<ClientEntry<C>>>) -> Seq<ClientEntry<C>>
    decreases keeps.len(),
{
    if keeps.len() == 0 {
        Seq::empty()
    } else {
        kept_rows(keeps.drop_last()) + (match keeps.last() {
            None => Seq::empty(),
            Some(e) => seq![e],
        })
    }
}

/// One whole polling pass: the scan walks the table from its last row to its
/// first; each row gets one poll outcome and one fate per
/// [`spec_client_pass`], with the inventory chained through the scan; the
/// rows that survive, in scan order, are the new table.
pub open spec fn spec_poll_pass<C: Transport>(
    before: Seq<ClientEntry<C>>,
    inv0: Inv,
    after: Seq<ClientEntry<C>>,
    inv1: Inv,
) -> bool {
    exists|outcomes: Seq<PollOutcome>, keeps: Seq<Option<ClientEntry<C>>>, invs: Seq<Inv>|
        #![trigger outcomes.len(), keeps.len(), invs.len()]
        {
            &&& outcomes.len() == before.len()
            &&& keeps.len() == before.len()
            &&& invs.len() == before.len() + 1
            &&& invs[0] == inv0
            &&& invs[before.len() as int] == inv1
            &&& after == kept_rows(keeps)
            &&& forall|j: int|
                0 <= j < before.len() ==> #[trigger] spec_client_pass(
                    before[before.len() - 1 - j],
                    outcomes[j],
                    keeps[j],
                    invs[j],
                    invs[j + 1],
                )
        }
}

/// One connected client: its handle, its self-reported display name, and its
/// stream.
pub struct ClientEntry<C> {
    pub id: ClientId,
    pub name: String,
    pub conn: C,
}

/// What one dispatched command does: how the inventory and the client's
/// stream after the command relate to their states before it, per command
/// code. On failure the inventory is untouched and no acknowledgment is
/// promised. The reserved codes involve no transport call at all, so for
/// them success and an untouched stream are owed outright; and an item
/// payload that is no valid encoding is rejected without an acknowledgment.
pub open spec fn spec_dispatch<C: Transport>(
    cmd: CmdCode,
    inv0: Inv,
    c0: C,
    inv1: Inv,
    c1: C,
    r: Result<(), IoErr>,
) -> bool {
    &&& (r is Err ==> inv1 == inv0)
    &&& (match cmd {
        CmdCode::ConnectionSuccessfull | CmdCode::OperationSuccessfull
        | CmdCode::CmdResponseRecieved => r is Ok,
        _ => true,
    })
    &&& (cmd is InsertItem ==> {
        let ib = c0.inbuf();
        let blen = spec_u32_from_be_bytes(ib.subrange(4, 8)) as int;
        (ib.len() >= 8 + blen && (forall|v: ItemV|
            !(item_encodable(v) && ib.subrange(8, 8 + blen) == #[trigger] spec_enc_item(v))))
            ==> (r is Err && c1.outbuf() == c0.outbuf())
    })
    &&& (r is Ok ==> match cmd {
        CmdCode::GetRelease => inv1 == inv0 && c1.inbuf() == c0.inbuf() && c1.outbuf()
            == c0.outbuf() + seq![
            spec_current_release().0,
            spec_current_release().1,
            spec_current_release().2,
        ],
        CmdCode::GetInv => inv1 == inv0 && inv_encodable(inv0@) && c1.inbuf() == c0.inbuf()
            && c1.outbuf() == c0.outbuf() + spec_enc_bytes(spec_enc_inv(inv0@)),
        CmdCode::InsertItem => {
            let ib = c0.inbuf();
            let rid = spec_u32_from_be_bytes(ib.take(4));
            let blen = spec_u32_from_be_bytes(ib.subrange(4, 8)) as int;
            &&& ib.len() >= 8 + blen
            &&& c1.inbuf() == ib.skip(8 + blen)
            &&& c1.outbuf() == c0.outbuf() + seq![spec_code_byte(CmdCode::OperationSuccessfull)]
            &&& inv1@.platform_names == inv0@.platform_names
            &&& exists|itemv: ItemV| inv1.items@ == inv0.items@.insert(Id(rid), itemv)
            &&& forall|v: ItemV|
                (item_encodable(v) && ib.subrange(8, 8 + blen) == spec_enc_item(v))
                    ==> inv1.items@ == inv0.items@.insert(Id(rid), v)
        },
        CmdCode::RemoveItem => {
            let ib = c0.inbuf();
            let rid = spec_u32_from_be_bytes(ib.take(4));
            &&& ib.len() >= 4
            &&& c1.inbuf() == ib.skip(4)
            &&& c1.outbuf() == c0.outbuf() + seq![spec_code_byte(CmdCode::OperationSuccessfull)]
            &&& inv1@.platform_names == inv0@.platform_names
            &&& inv1.items@ == inv0.items@.remove(Id(rid))
        },
        CmdCode::GetServerClients | CmdCode::CreateServerBackup => inv1 == inv0 && c1.inbuf()
            == c0.inbuf() && c1.outbuf() == c0.outbuf() + seq![
            spec_code_byte(CmdCode::OperationSuccessfull),
        ],
        CmdCode::ConnectionSuccessfull | CmdCode::OperationSuccessfull
        | CmdCode::CmdResponseRecieved => inv1 == inv0 && c1 == c0,
    })
}

/// Performs exactly the protocol action of one already-read command code:
/// reads the command's payload off the stream, applies it to the inventory,
/// and writes the command's response. Reserved codes are no-ops. A payload
/// that does not decode is rejected without an acknowledgment and without
/// touching the inventory; deleting an absent identifier is not an error and
/// is still acknowledged.
pub fn dispatch_cmd<C: Transport>(inv: &mut Inv, conn: &mut C, cmd: CmdCode) -> (r: Result<
    (),
    IoErr,
>)
    ensures
        spec_dispatch(cmd, *old(inv), *old(conn), *final(inv), *final(conn), r),
{
    match cmd {
        CmdCode::GetRelease => {
            let b = Release::current().as_bytes();
            match conn.write_all(b.as_slice()) {
                Ok(_) => Ok(()),
                Err(e) => Err(e),
            }
        },
        CmdCode::GetInv => {
            let blob = match encode_inv(&*inv) {
                Some(b) => b,
                None => {
                    return Err(IoErr::InvalidData);
                },
            };
            let mut framed: Vec<u8> = Vec::new();
            if !enc_bytes(&mut framed, blob.as_slice()) {
                return Err(IoErr::InvalidData);
            }
            match conn.write_all(framed.as_slice()) {
                Ok(_) => Ok(()),
                Err(e) => Err(e),
            }
        },
        CmdCode::InsertItem => {
            let idb = match conn.read_exact(4) {
                Ok(b) => b,
                Err(e) => {
                    return Err(e);
                },
            };
            let rid = match dec_u32(&idb, 0) {
                Some(v) => v.0,
                None => {
                    return Err(IoErr::InvalidData);
                },
            };
            let lenb = match conn.read_exact(4) {
                Ok(b) => b,
                Err(e) => {
                    return Err(e);
                },
            };
            let blen = match dec_u32(&lenb, 0) {
                Some(v) => v.0,
                None => {
                    return Err(IoErr::InvalidData);
                },
            };
            let blob = match conn.read_exact(blen as usize) {
                Ok(b) => b,
                Err(e) => {
                    return Err(e);
                },
            };
            let ghost ib = old(conn).inbuf();
            proof {
                assert(idb@.subrange(0, 4) =~= ib.take(4));
                assert(lenb@.subrange(0, 4) =~= ib.skip(4).take(4));
                assert(lenb@.subrange(0, 4) =~= ib.subrange(4, 8));
                assert(blob@ =~= ib.subrange(8, 8 + blen as int));
                assert(conn.inbuf() =~= ib.skip(8 + blen as int));
            }
            let item = match decode_item(&blob) {
                Some(it) => it,
                None => {
                    return Err(IoErr::InvalidData);
                },
            };
            match send_code(conn, CmdCode::OperationSuccessfull) {
                Ok(_) => (),
                Err(e) => {
                    return Err(e);
                },
            }
            inv.items.insert(Id(rid), item);
            Ok(())
        },
        CmdCode::RemoveItem => {
            let idb = match conn.read_exact(4) {
                Ok(b) => b,
                Err(e) => {
                    return Err(e);
                },
            };
            let rid = match dec_u32(&idb, 0) {
                Some(v) => v.0,
                None => {
                    return Err(IoErr::InvalidData);
                },
            };
            match send_code(conn, CmdCode::OperationSuccessfull) {
                Ok(_) => (),
                Err(e) => {
                    return Err(e);
                },
            }
            proof {
                assert(idb@.subrange(0, 4) =~= old(conn).inbuf().take(4));
            }
            inv.items.remove(Id(rid));
            Ok(())
        },
        CmdCode::GetServerClients | CmdCode::CreateServerBackup => {
            send_code(conn, CmdCode::OperationSuccessfull)
        },
        CmdCode::ConnectionSuccessfull | CmdCode::OperationSuccessfull
        | CmdCode::CmdResponseRecieved => {
            // A reserved or server-to-client code read off a client: logged
            // by the caller and otherwise a no-op.
            Ok(())
        },
    }
}

/// The server host: the canonical inventory and the table of connected
/// clients.
pub struct ServerHost<C> {
    clients: Vec<ClientEntry<C>>,
    pub inv: Inv,
}

impl<C: Transport> ServerHost<C> {
    /// The connected clients, in table order.
    pub closed spec fn clients_seq(&self) -> Seq<ClientEntry<C>> {
        self.clients@
    }

    /// The canonical inventory, for stating what a command did to it.
    pub closed spec fn inventory(&self) -> Inv {
        self.inv
    }

    /// No two table rows share a client identifier.
    pub open spec fn wf(&self) -> bool {
        forall|i: int, j: int|
            0 <= i < j < self.clients_seq().len() ==> (#[trigger] self.clients_seq()[i]).id != (
            #[trigger] self.clients_seq()[j]).id
    }

    /// Whether some connected client carries the identifier.
    pub open spec fn has_client(&self, id: ClientId) -> bool {
        exists|i: int|
            0 <= i < self.clients_seq().len() && (#[trigger] self.clients_seq()[i]).id == id
    }

    /// A host that owns the given inventory and has no clients yet.
    pub fn new(inv: Inv) -> (r: ServerHost<C>)
        ensures
            r.wf(),
            r.clients_seq() == Seq::<ClientEntry<C>>::empty(),
            r.inventory() == inv,
    {
        let r = ServerHost { clients: Vec::new(), inv };
        proof {
            assert(r.clients_seq() =~= Seq::<ClientEntry<C>>::empty());
        }
        r
    }

    /// Number of connected clients.
    pub fn client_count(&self) -> (r: usize)
        ensures
            r == self.clients_seq().len(),
    {
        self.clients.len()
    }

    /// Index of the first table row carrying the identifier.
    fn find_client(&self, id: ClientId) -> (r: Option<usize>)
        ensures
            match r {
                Some(i) => i < self.clients_seq().len() && self.clients_seq()[i as int].id == id,
                None => !self.has_client(id),
            },
    {
        let mut i: usize = 0;
        while i < self.clients.len()
            invariant
                i <= self.clients@.len(),
                forall|j: int| 0 <= j < i ==> (#[trigger] self.clients@[j]).id != id,
            decreases self.clients@.len() - i,
        {
            if self.clients[i].id == id {
                return Some(i);
            }
            i = i + 1;
        }
        None
    }

    /// Unregisters and hands back one client's table row, stream included.
    pub fn take_client(&mut self, id: ClientId) -> (r: Option<ClientEntry<C>>)
        requires
            old(self).wf(),
        ensures
            final(self).wf(),
            final(self).inventory() == old(self).inventory(),
            match r {
                Some(entry) => entry.id == id && !final(self).has_client(id) && exists|i: int|
                    0 <= i < old(self).clients_seq().len() && old(self).clients_seq()[i] == entry
                        && final(self).clients_seq() == old(self).clients_seq().remove(i),
                None => !old(self).has_client(id) && final(self).clients_seq() == old(
                    self,
                ).clients_seq(),
            },
    {
        let idx = match self.find_client(id) {
            Some(i) => i,
            None => {
                return None;
            },
        };
        let ghost s = self.clients@;
        let entry = self.clients.remove(idx);
        proof {
            assert forall|x: int, y: int|
                0 <= x < y < self.clients@.len() implies (#[trigger] self.clients@[x]).id != (
            #[trigger] self.clients@[y]).id by {
                let xo = if x < idx as int {
                    x
                } else {
                    x + 1
                };
                let yo = if y < idx as int {
                    y
                } else {
                    y + 1
                };
                assert(s[xo].id != s[yo].id);
            }
            assert forall|j: int| 0 <= j < self.clients@.len() implies (
            #[trigger] self.clients@[j]).id != id by {
                let jo = if j < idx as int {
                    j
                } else {
                    j + 1
                };
                assert(s[jo].id != s[idx as int].id || jo == idx as int);
            }
        }
        Some(entry)
    }

    /// Registers a stream back into the table; the identifier must be free.
    pub fn restore_client(&mut self, entry: ClientEntry<C>)
        requires
            old(self).wf(),
            !old(self).has_client(entry.id),
        ensures
            final(self).wf(),
            final(self).inventory() == old(self).inventory(),
            final(self).clients_seq() == old(self).clients_seq().push(entry),
    {
        let ghost s = self.clients@;
        let ghost e = entry;
        self.clients.push(entry);
        proof {
            assert(s == old(self).clients_seq());
            assert forall|x: int, y: int|
                0 <= x < y < self.clients@.len() implies (#[trigger] self.clients@[x]).id != (
            #[trigger] self.clients@[y]).id by {
                assert(self.clients@ == s.push(e));
                if y < s.len() {
                    assert((old(self).clients_seq()[x]).id != (old(self).clients_seq()[y]).id);
                } else {
                    assert(self.clients@[y] == e);
                    assert(!old(self).has_client(e.id));
                    assert((old(self).clients_seq()[x]).id != e.id);
                }
            }
        }
    }

    /// Performs the server side of the handshake on a fresh stream: reads
    /// the client's release triple and its length-prefixed name (decoded
    /// leniently if not valid UTF-8), acknowledges the connection, draws a
    /// client identifier at random, and registers the stream under it. A
    /// drawn identifier that collides with a live one replaces that client,
    /// as an unchecked accepted risk.
    pub fn connect_client(&mut self, io: C) -> (r: Result<ClientId, IoErr>)
        requires
            old(self).wf(),
        ensures
            final(self).wf(),
            final(self).inventory() == old(self).inventory(),
            r is Err ==> final(self).clients_seq() == old(self).clients_seq(),
            r matches Ok(cid) ==> ({
                let ib = io.inbuf();
                let nlen = spec_u32_from_be_bytes(ib.subrange(3, 7)) as int;
                &&& ib.len() >= 7 + nlen
                &&& final(self).clients_seq().len() >= 1
                &&& {
                    let entry = final(self).clients_seq().last();
                    &&& entry.id == cid
                    &&& (valid_utf8(ib.subrange(7, 7 + nlen)) ==> entry.name@ == decode_utf8(
                        ib.subrange(7, 7 + nlen),
                    ))
                    &&& entry.conn.inbuf() == ib.skip(7 + nlen)
                    &&& entry.conn.outbuf() == io.outbuf() + seq![
                        spec_code_byte(CmdCode::ConnectionSuccessfull),
                    ]
                }
                &&& (!old(self).has_client(cid) ==> final(self).clients_seq() == old(
                    self,
                ).clients_seq().push(final(self).clients_seq().last()))
            }),
    {
        let ghost ib = io.inbuf();
        let mut io = io;
        let _release_bytes = match io.read_exact(3) {
            Ok(b) => b,
            Err(e) => {
                return Err(e);
            },
        };
        let lenb = match io.read_exact(4) {
            Ok(b) => b,
            Err(e) => {
                return Err(e);
            },
        };
        let nlen = match dec_u32(&lenb, 0) {
            Some(v) => v.0,
            None => {
                return Err(IoErr::InvalidData);
            },
        };
        let name_bytes = match io.read_exact(nlen as usize) {
            Ok(b) => b,
            Err(e) => {
                return Err(e);
            },
        };
        let name = string_from_utf8_lossy(&name_bytes);
        match send_code(&mut io, CmdCode::ConnectionSuccessfull) {
            Ok(_) => (),
            Err(e) => {
                return Err(e);
            },
        }
        proof {
            assert(lenb@.subrange(0, 4) =~= ib.subrange(3, 7));
            assert(name_bytes@ =~= ib.subrange(7, 7 + nlen as int));
            assert(io.inbuf() =~= ib.skip(7 + nlen as int));
        }
        let cid = random_u32();
        // A collision with a live identifier replaces that client: the table
        // keeps one row per identifier.
        match self.take_client(cid) {
            Some(_) => (),
            None => (),
        }
        let entry = ClientEntry { id: cid, name, conn: io };
        self.restore_client(entry);
        Ok(cid)
    }

    /// Dispatches one already-read command code for a known client: performs
    /// the command against the inventory over that client's stream.
    pub fn handle_client_cmd(&mut self, id: ClientId, cmd: CmdCode) -> (r: Result<(), IoErr>)
        requires
            old(self).wf(),
            old(self).has_client(id),
        ensures
            final(self).wf(),
            exists|i: int|
                {
                    &&& 0 <= i < old(self).clients_seq().len()
                    &&& (#[trigger] old(self).clients_seq()[i]).id == id
                    &&& {
                        let entry1 = final(self).clients_seq().last();
                        &&& final(self).clients_seq() == old(self).clients_seq().remove(i).push(
                            entry1,
                        )
                        &&& entry1.id == id
                        &&& entry1.name == old(self).clients_seq()[i].name
                        &&& spec_dispatch(
                            cmd,
                            old(self).inventory(),
                            old(self).clients_seq()[i].conn,
                            final(self).inventory(),
                            entry1.conn,
                            r,
                        )
                    }
                },
    {
        let mut entry = match self.take_client(id) {
            Some(e) => e,
            None => {
                return Err(IoErr::Other);
            },
        };
        let r = dispatch_cmd(&mut self.inv, &mut entry.conn, cmd);
        self.restore_client(entry);
        r
    }

    /// One polling pass: probes every connected client for a pending command
    /// byte, walking the table from its last row to its first. A pending
    /// known code is dispatched synchronously; an unknown byte is dropped
    /// without a response; a closed or failed stream is unregistered; a
    /// client with nothing pending is skipped. Dispatch failures are only
    /// worth logging, so they leave the client registered.
    pub fn check_clients(&mut self)
        requires
            old(self).wf(),
        ensures
            final(self).wf(),
            final(self).clients_seq().len() <= old(self).clients_seq().len(),
            clients_subset_of(final(self).clients_seq(), old(self).clients_seq()),
            spec_poll_pass(
                old(self).clients_seq(),
                old(self).inventory(),
                final(self).clients_seq(),
                final(self).inventory(),
            ),
    {
        let mut pending: Vec<ClientEntry<C>> = Vec::new();
        core::mem::swap(&mut pending, &mut self.clients);
        proof {
            assert(pending@ == old(self).clients_seq());
            assert forall|i: int, j: int|
                0 <= i < j < pending@.len() implies (#[trigger] pending@[i]).id != (
            #[trigger] pending@[j]).id by {
                assert((old(self).clients_seq()[i]).id != (old(self).clients_seq()[j]).id);
            }
        }
        let ghost orig = pending@;
        let ghost mut outcomes: Seq<PollOutcome> = Seq::empty();
        let ghost mut keeps: Seq<Option<ClientEntry<C>>> = Seq::empty();
        let ghost mut invs: Seq<Inv> = seq![self.inv];
        let mut kept: Vec<ClientEntry<C>> = Vec::new();
        loop
            invariant
                kept@.len() + pending@.len() <= orig.len(),
                clients_subset_of(kept@, orig),
                pending@ == orig.take(pending@.len() as int),
                outcomes.len() + pending@.len() == orig.len(),
                keeps.len() == outcomes.len(),
                invs.len() == outcomes.len() + 1,
                invs[0] == old(self).inventory(),
                invs.last() == self.inv,
                kept@ == kept_rows(keeps),
                forall|j: int|
                    0 <= j < outcomes.len() ==> #[trigger] spec_client_pass(
                        orig[orig.len() - 1 - j],
                        outcomes[j],
                        keeps[j],
                        invs[j],
                        invs[j + 1],
                    ),
                forall|i: int, j: int|
                    0 <= i < j < pending@.len() ==> (#[trigger] pending@[i]).id != (
                    #[trigger] pending@[j]).id,
                forall|i: int, j: int|
                    0 <= i < j < kept@.len() ==> (#[trigger] kept@[i]).id != (
                    #[trigger] kept@[j]).id,
                forall|i: int, j: int|
                    0 <= i < kept@.len() && 0 <= j < pending@.len() ==> (#[trigger] kept@[i]).id
                        != (#[trigger] pending@[j]).id,
            ensures
                pending@.len() == 0,
                kept@.len() <= orig.len(),
                clients_subset_of(kept@, orig),
                outcomes.len() == orig.len(),
                keeps.len() == orig.len(),
                invs.len() == orig.len() + 1,
                invs[0] == old(self).inventory(),
                invs.last() == self.inv,
                kept@ == kept_rows(keeps),
                forall|j: int|
                    0 <= j < outcomes.len() ==> #[trigger] spec_client_pass(
                        orig[orig.len() - 1 - j],
                        outcomes[j],
                        keeps[j],
                        invs[j],
                        invs[j + 1],
                    ),
                forall|i: int, j: int|
                    0 <= i < j < kept@.len() ==> (#[trigger] kept@[i]).id != (
                    #[trigger] kept@[j]).id,
            decreases pending@.len(),
        {
            let ghost pend0 = pending@;
            let ghost kept0 = kept@;
            let ghost outcomes0 = outcomes;
            let ghost keeps0 = keeps;
            let ghost invs0 = invs;
            let ghost steps = outcomes.len() as int;
            let mut entry = match pending.pop() {
                Some(e) => e,
                None => {
                    break ;
                },
            };
            let ghost e0 = entry;
            let ghost eid = entry.id;
            let ghost inv_before = self.inv;
            proof {
                assert(pending@ == pend0.drop_last());
                assert(entry == pend0.last());
                assert(e0 == orig[orig.len() - 1 - steps]);
                assert forall|j: int| 0 <= j < pending@.len() implies (#[trigger] pending@[j]).id
                    != eid by {
                    assert(pending@[j] == pend0[j]);
                    assert(pend0[j].id != pend0[pend0.len() - 1].id);
                }
                assert forall|i: int| 0 <= i < kept@.len() implies (#[trigger] kept@[i]).id
                    != eid by {
                    assert(kept@[i].id != pend0[pend0.len() - 1].id);
                }
            }
            let pout = entry.conn.poll_byte();
            let mut keep = true;
            match pout {
                PollOutcome::Closed | PollOutcome::Failed => {
                    // Peer gone: drop the entry, disconnecting the client.
                    keep = false;
                },
                PollOutcome::WouldBlock => {},
                PollOutcome::Byte(b) => {
                    match CmdCode::from_u8(b) {
                        Some(cmd) => {
                            let ghost mid = entry.conn;
                            // A dispatch failure is only worth logging; the
                            // client stays connected either way.
                            let _res = dispatch_cmd(&mut self.inv, &mut entry.conn, cmd);
                            proof {
                                let e1 = ClientEntry { id: entry.id, name: entry.name, conn: entry.conn };
                                assert(e1 == entry);
                                assert(spec_dispatch(cmd, inv_before, mid, self.inv, entry.conn, _res));
                            }
                        },
                        None => {
                            // Unknown command byte: ignored, no response.
                        },
                    }
                },
            }
            proof {
                let fate: Option<ClientEntry<C>> = if keep {
                    Some(entry)
                } else {
                    None
                };
                assert(spec_client_pass(e0, pout, fate, inv_before, self.inv));
                outcomes = outcomes.push(pout);
                keeps = keeps.push(fate);
                invs = invs.push(self.inv);
                assert(outcomes.drop_last() =~= outcomes0);
                assert(keeps.drop_last() =~= keeps0);
                assert(invs.drop_last() =~= invs0);
                assert forall|j: int| 0 <= j < outcomes.len() implies #[trigger] spec_client_pass(
                    orig[orig.len() - 1 - j],
                    outcomes[j],
                    keeps[j],
                    invs[j],
                    invs[j + 1],
                ) by {
                    if j < steps {
                        assert(outcomes[j] == outcomes0[j]);
                        assert(keeps[j] == keeps0[j]);
                        assert(invs[j] == invs0[j] && invs[j + 1] == invs0[j + 1]);
                        assert(spec_client_pass(
                            orig[orig.len() - 1 - j],
                            outcomes0[j],
                            keeps0[j],
                            invs0[j],
                            invs0[j + 1],
                        ));
                    } else {
                        assert(invs[j] == invs0[steps] && invs[j + 1] == self.inv);
                    }
                }
                if keep {
                    assert(kept_rows(keeps) =~= kept_rows(keeps0) + seq![entry]);
                } else {
                    assert(kept_rows(keeps) =~= kept_rows(keeps0));
                }
            }
            if keep {
                proof {
                    assert(entry.id == eid);
                    assert(orig[pend0.len() - 1].id == eid);
                    assert(entry.name == orig[pend0.len() - 1].name);
                    assert(pending@ =~= orig.take(pending@.len() as int));
                }
                kept.push(entry);
                proof {
                    assert(kept@ == kept_rows(keeps));
                    assert forall|i: int| 0 <= i < kept@.len() implies exists|j: int|
                        0 <= j < orig.len() && (#[trigger] kept@[i]).id == (#[trigger] orig[j]).id
                            && kept@[i].name == orig[j].name by {
                        if i < kept0.len() {
                            assert(kept@[i] == kept0[i]);
                            let j = choose|j: int|
                                0 <= j < orig.len() && (#[trigger] kept0[i]).id == (
                                #[trigger] orig[j]).id && kept0[i].name == orig[j].name;
                            assert(kept@[i].id == orig[j].id && kept@[i].name == orig[j].name);
                        } else {
                            assert(kept@[i].id == orig[pend0.len() - 1].id && kept@[i].name == orig[
                                pend0.len() - 1].name);
                        }
                    }
                    assert(clients_subset_of(kept@, orig));
                    assert forall|i: int, j: int|
                        0 <= i < j < kept@.len() implies (#[trigger] kept@[i]).id != (
                    #[trigger] kept@[j]).id by {
                        assert(kept@ == kept0.push(entry));
                        if j < kept0.len() {
                            assert(kept0[i].id != kept0[j].id);
                        } else {
                            assert(kept@[j].id == eid);
                            assert(kept0[i].id != eid);
                        }
                    }
                    assert forall|i: int, j: int|
                        0 <= i < kept@.len() && 0 <= j < pending@.len() implies (
                    #[trigger] kept@[i]).id != (#[trigger] pending@[j]).id by {
                        if i < kept0.len() {
                            assert(kept0[i].id != pending@[j].id);
                        } else {
                            assert(kept@[i].id == eid);
                        }
                    }
                }
            } else {
                proof {
                    assert(kept@ == kept_rows(keeps));
                    assert(pending@ =~= orig.take(pending@.len() as int));
                }
            }
        }
        let ghost keptv = kept@;
        self.clients = kept;
        proof {
            assert forall|i: int, j: int|
                0 <= i < j < self.clients_seq().len() implies (#[trigger] self.clients_seq()[i]).id
                != (#[trigger] self.clients_seq()[j]).id by {
                assert(keptv[i].id != keptv[j].id);
            }
            assert(self.clients_seq() == keptv);
            assert(orig == old(self).clients_seq());
            assert(clients_subset_of(self.clients_seq(), old(self).clients_seq()));
            assert(outcomes.len() == orig.len());
            assert(keeps.len() == orig.len());
            assert(invs.len() == orig.len() + 1);
            assert(invs[orig.len() as int] == self.inv);
            assert(self.clients_seq() == kept_rows(keeps));
            assert(spec_poll_pass(
                old(self).clients_seq(),
                old(self).inventory(),
                self.clients_seq(),
                self.inventory(),
            ));
        }
    }
}

} // verus!
