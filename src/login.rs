//! Login-phase packets: their IDs, and which packet an ID names in each
//! direction.
use vstd::prelude::*;
use vstd::utf8::{decode_utf8, decode_utf8_encode_utf8, encode_utf8};
use crate::codec::{at, be, pow256, put_be, put_bytes, read_be, read_u8, str_from_utf8};

verus! {

/// The direction a packet travels in.
#[derive(Debug, Clone, Copy, PartialEq, Eq, Structural)]
pub enum PacketFlow {
    ClientToServer,
    ServerToClient,
}

/// A custom query from the server; its body is carried as encoded bytes.
#[derive(Debug)]
pub struct ClientboundCustomQueryPacket {
    pub body: Vec<u8>,
}

/// The client's hello; its body is carried as encoded bytes.
#[derive(Debug)]
pub struct ServerboundHelloPacket {
    pub body: Vec<u8>,
}

/// The server's hello; its body is carried as encoded bytes.
#[derive(Debug)]
pub struct ClientboundHelloPacket {
    pub body: Vec<u8>,
}

/// A player's profile: the UUID as one 128-bit number, and the name.
#[derive(Debug)]
pub struct GameProfile {
    pub uuid: u128,
    pub name: String,
}

/// The server's answer that login succeeded, with the player's profile.
#[derive(Debug)]
pub struct ClientboundGameProfilePacket {
    pub game_profile: GameProfile,
}

/// A packet of the login phase.
#[derive(Debug)]
pub enum LoginPacket {
    ClientboundCustomQueryPacket(ClientboundCustomQueryPacket),
    ServerboundHelloPacket(ServerboundHelloPacket),
    ClientboundHelloPacket(ClientboundHelloPacket),
    ClientboundGameProfilePacket(ClientboundGameProfilePacket),
}

/// Why a packet could not be read.
#[derive(Debug, Clone, Copy, PartialEq, Eq, Structural)]
pub enum LoginReadError {
    /// No packet of this phase has this ID in this direction.
    UnknownPacketId(PacketFlow, u32),
    /// The body ended before a field was complete.
    UnexpectedEndOfInput,
    /// A string is longer than its field allows.
    StringTooLong,
    /// A string's bytes are not valid UTF-8.
    InvalidStringEncoding,
}

/// The longest string a packet may carry, in UTF-8 bytes.
pub const MAX_STRING_LENGTH: usize = 32767;

/// The longest player name, in characters; its UTF-8 form may take four
/// bytes per character.
pub const MAX_NAME_LENGTH: usize = 16;

/// A variable-length unsigned number: seven bits per byte, least
/// significant first, the high bit set on every byte but the last.
pub open spec fn varint_bytes(v: u32) -> Seq<u8>
    decreases v,
{
    if v < 128 {
        seq![v as u8]
    } else {
        seq![(v % 128 + 128) as u8] + varint_bytes(v / 128)
    }
}

/// A packet string: its UTF-8 length as a varint, then its UTF-8 bytes.
pub open spec fn utf_bytes(s: Seq<char>) -> Seq<u8> {
    varint_bytes(encode_utf8(s).len() as u32) + encode_utf8(s)
}

/// A UUID as four big-endian ints, most significant first.
pub open spec fn uuid_bytes(u: u128) -> Seq<u8> {
    be((u as nat) / 0x1_0000_0000_0000_0000, 8) + be((u as nat) % 0x1_0000_0000_0000_0000, 8)
}

/// The body of a game profile packet: the UUID, then the name.
pub open spec fn profile_bytes(p: GameProfile) -> Seq<u8> {
    uuid_bytes(p.uuid) + utf_bytes(p.name@)
}

fn put_varint(out: &mut Vec<u8>, v: u32)
    ensures
        final(out)@ == old(out)@ + varint_bytes(v),
    decreases v,
{
    if v < 128 {
        out.push(v as u8);
        assert(final(out)@ =~= old(out)@ + varint_bytes(v));
    } else {
        out.push((v % 128 + 128) as u8);
        put_varint(out, v / 128);
        assert(final(out)@ =~= old(out)@ + varint_bytes(v));
    }
}

impl ClientboundGameProfilePacket {
    /// This packet as a login packet.
    pub fn get(self) -> (r: LoginPacket)
        ensures
            r == LoginPacket::ClientboundGameProfilePacket(self),
    {
        LoginPacket::ClientboundGameProfilePacket(self)
    }

    /// Append the body: the UUID as four ints, then the name.
    pub fn write(&self, buf: &mut Vec<u8>)
        requires
            encode_utf8(self.game_profile.name@).len() <= MAX_STRING_LENGTH,
        ensures
            final(buf)@ == old(buf)@ + profile_bytes(self.game_profile),
    {
        let uuid = self.game_profile.uuid;
        put_be(buf, (uuid >> 64u32) as u64, 8);
        put_be(buf, uuid as u64, 8);
        let name = self.game_profile.name.as_str().as_bytes();
        put_varint(buf, name.len() as u32);
        put_bytes(buf, name);
        proof {
            assert((uuid >> 64u32) as u64 as nat == (uuid as nat) / 0x1_0000_0000_0000_0000) by (bit_vector);
            assert(uuid as u64 as nat == (uuid as nat) % 0x1_0000_0000_0000_0000) by (bit_vector);
            assert(final(buf)@ =~= old(buf)@ + profile_bytes(self.game_profile));
        }
    }

    /// Read the body: the UUID as four ints, then a name of at most
    /// `MAX_NAME_LENGTH` characters (so at most four times as many bytes).
    pub fn read(body: &[u8]) -> (r: Result<LoginPacket, LoginReadError>)
        ensures
            r matches Ok(p) ==> p is ClientboundGameProfilePacket && {
                let g = p->ClientboundGameProfilePacket_0.game_profile;
                &&& body@.len() >= profile_bytes(g).len()
                &&& body@.subrange(0, profile_bytes(g).len() as int) == profile_bytes(g)
            },
            body@.len() < 17 ==> r is Err,
            forall|g: GameProfile|
                encode_utf8(g.name@).len() <= MAX_NAME_LENGTH * 4 && #[trigger] at(body@, 0, profile_bytes(g)) ==> (r matches Ok(p) && p is ClientboundGameProfilePacket
                    && p->ClientboundGameProfilePacket_0.game_profile.uuid == g.uuid
                    && p->ClientboundGameProfilePacket_0.game_profile.name@ == g.name@),
    {
        proof {
            reveal_with_fuel(pow256, 9);
            assert forall|g: GameProfile| encode_utf8(g.name@).len() <= MAX_NAME_LENGTH * 4 && #[trigger] at(body@, 0, profile_bytes(g)) implies at(body@, 0, be((g.uuid as nat) / 0x1_0000_0000_0000_0000, 8)) && (g.uuid as nat) / 0x1_0000_0000_0000_0000 < pow256(8) && at(
                body@,
                8,
                be((g.uuid as nat) % 0x1_0000_0000_0000_0000, 8),
            ) && (g.uuid as nat) % 0x1_0000_0000_0000_0000 < pow256(8) && body@.len() > 16 && body@[16] as nat == encode_utf8(g.name@).len() && at(
                body@,
                17,
                encode_utf8(g.name@),
            ) by {
                let n = encode_utf8(g.name@).len();
                assert(varint_bytes(n as u32) == seq![n as u8]);
                let u = g.uuid;
                assert((u as nat) / 0x1_0000_0000_0000_0000 < 0x1_0000_0000_0000_0000) by (nonlinear_arith)
                    requires
                        (u as nat) < 0x1_0000_0000_0000_0000_0000_0000_0000_0000;
                crate::codec::lemma_at_split(body@, 0, uuid_bytes(u), utf_bytes(g.name@));
                crate::codec::lemma_at_split(body@, 0, be((u as nat) / 0x1_0000_0000_0000_0000, 8), be((u as nat) % 0x1_0000_0000_0000_0000, 8));
                crate::codec::lemma_be_len((u as nat) / 0x1_0000_0000_0000_0000, 8);
                crate::codec::lemma_be_len((u as nat) % 0x1_0000_0000_0000_0000, 8);
                crate::codec::lemma_at_split(body@, 16, seq![n as u8], encode_utf8(g.name@));
                assert(body@.subrange(16, 17)[0] == body@[16]);
            }
        }
        let (hi, p) = match read_be(body, 0, 8) {
            Ok(x) => x,
            Err(_) => return Err(LoginReadError::UnexpectedEndOfInput),
        };
        let (lo, p) = match read_be(body, p, 8) {
            Ok(x) => x,
            Err(_) => return Err(LoginReadError::UnexpectedEndOfInput),
        };
        let (len, p) = match read_u8(body, p) {
            Ok(x) => x,
            Err(_) => return Err(LoginReadError::UnexpectedEndOfInput),
        };
        if len as usize > MAX_NAME_LENGTH * 4 {
            return Err(LoginReadError::StringTooLong);
        }
        let len = len as usize;
        if len > body.len() - p {
            return Err(LoginReadError::UnexpectedEndOfInput);
        }
        let raw = &body[p..p + len];
        proof {
            assert forall|g: GameProfile|
                encode_utf8(g.name@).len() <= MAX_NAME_LENGTH * 4 && #[trigger] at(body@, 0, profile_bytes(g)) implies vstd::utf8::valid_utf8(
                raw@) by {
                assert(raw@ =~= body@.subrange(17, 17 + encode_utf8(g.name@).len() as int));
                vstd::utf8::encode_utf8_valid_utf8(g.name@);
            }
        }
        let name = match str_from_utf8(raw) {
            Some(s) => s.to_owned(),
            None => return Err(LoginReadError::InvalidStringEncoding),
        };
        proof {
            reveal_with_fuel(pow256, 9);
        }
        let uuid = ((hi as u128) << 64u32) | (lo as u128);
        proof {
            assert(hi < 0x1_0000_0000_0000_0000 && lo < 0x1_0000_0000_0000_0000);
            assert(((hi as u128) << 64u32 | lo as u128) as nat / 0x1_0000_0000_0000_0000 == hi as nat
                && ((hi as u128) << 64u32 | lo as u128) as nat % 0x1_0000_0000_0000_0000 == lo as nat)
                by (bit_vector);
            decode_utf8_encode_utf8(raw@);
            assert(varint_bytes(len as u32) == seq![len as u8]);
            let g0 = GameProfile { uuid, name };
            assert(body@.subrange(0, profile_bytes(g0).len() as int) =~= profile_bytes(g0));
            assert forall|g: GameProfile| encode_utf8(g.name@).len() <= MAX_NAME_LENGTH * 4 && #[trigger] at(body@, 0, profile_bytes(g)) implies uuid == g.uuid && name@ == g.name@ by {
                let u = g.uuid;
                assert(hi as nat == (g.uuid as nat) / 0x1_0000_0000_0000_0000 && lo as nat == (g.uuid as nat) % 0x1_0000_0000_0000_0000);
                assert(((u >> 64u32) as u64) as nat == (u as nat) / 0x1_0000_0000_0000_0000) by (bit_vector);
                assert((u as u64) as nat == (u as nat) % 0x1_0000_0000_0000_0000) by (bit_vector);
                assert(((((u >> 64u32) as u64) as u128) << 64u32 | ((u as u64) as u128)) == u) by (bit_vector);
                assert(raw@ =~= body@.subrange(17, 17 + encode_utf8(g.name@).len() as int));
                vstd::utf8::encode_utf8_decode_utf8(g.name@);
            }
        }
        Ok(LoginPacket::ClientboundGameProfilePacket(
            ClientboundGameProfilePacket { game_profile: GameProfile { uuid, name } },
        ))
    }
}

/// The packet ID of each kind of login packet.
pub open spec fn packet_id(p: LoginPacket) -> u32 {
    match p {
        LoginPacket::ClientboundCustomQueryPacket(_) => 0x04,
        LoginPacket::ServerboundHelloPacket(_) => 0x00,
        LoginPacket::ClientboundHelloPacket(_) => 0x01,
        LoginPacket::ClientboundGameProfilePacket(_) => 0x02,
    }
}

/// The encoded body of a login packet.
pub open spec fn packet_body(p: LoginPacket) -> Seq<u8> {
    match p {
        LoginPacket::ClientboundCustomQueryPacket(q) => q.body@,
        LoginPacket::ServerboundHelloPacket(q) => q.body@,
        LoginPacket::ClientboundHelloPacket(q) => q.body@,
        LoginPacket::ClientboundGameProfilePacket(q) => profile_bytes(q.game_profile),
    }
}

/// Whether a packet's body can be written.
pub open spec fn writable(p: LoginPacket) -> bool {
    match p {
        LoginPacket::ClientboundGameProfilePacket(q) => encode_utf8(q.game_profile.name@).len()
            <= MAX_STRING_LENGTH,
        _ => true,
    }
}

impl LoginPacket {
    /// The packet ID.
    pub fn id(&self) -> (r: u32)
        ensures
            r == packet_id(*self),
    {
        match self {
            LoginPacket::ClientboundCustomQueryPacket(_) => 0x04,
            LoginPacket::ServerboundHelloPacket(_) => 0x00,
            LoginPacket::ClientboundHelloPacket(_) => 0x01,
            LoginPacket::ClientboundGameProfilePacket(_) => 0x02,
        }
    }

    /// Append the packet's body to `buf`.
    pub fn write(&self, buf: &mut Vec<u8>)
        requires
            writable(*self),
        ensures
            final(buf)@ == old(buf)@ + packet_body(*self),
    {
        let body = match self {
            LoginPacket::ClientboundGameProfilePacket(p) => {
                p.write(buf);
                return;
            },
            LoginPacket::ClientboundCustomQueryPacket(p) => &p.body,
            LoginPacket::ServerboundHelloPacket(p) => &p.body,
            LoginPacket::ClientboundHelloPacket(p) => &p.body,
        };
        let mut i: usize = 0;
        let ghost start = buf@;
        while i < body.len()
            invariant
                0 <= i <= body@.len(),
                body@ == packet_body(*self),
                buf@ == start + body@.take(i as int),
            decreases body@.len() - i,
        {
            buf.push(body[i]);
            proof {
                assert(body@.take(i + 1) =~= body@.take(i as int).push(body@[i as int]));
            }
            i = i + 1;
        }
        proof {
            assert(body@.take(i as int) =~= body@);
        }
    }

    /// The packet that `id` names in direction `flow`, with its body.
    pub fn read(id: u32, flow: &PacketFlow, body: Vec<u8>) -> (r: Result<LoginPacket, LoginReadError>)
        ensures
            r matches Ok(p) ==> packet_id(p) == id && packet_body(p) == body@,
            r matches Ok(p) ==> (*flow == PacketFlow::ClientToServer <==> p is ServerboundHelloPacket),
            r matches Ok(p) ==> !(p is ClientboundGameProfilePacket),
            (match *flow {
                PacketFlow::ServerToClient => id != 0x01 && id != 0x04,
                PacketFlow::ClientToServer => id != 0x00,
            }) ==> r == Err::<LoginPacket, LoginReadError>(LoginReadError::UnknownPacketId(*flow, id)),
            (id == 0x00 && *flow == PacketFlow::ClientToServer) || (*flow == PacketFlow::ServerToClient
                && (id == 0x01 || id == 0x04)) ==> r is Ok,
    {
        match flow {
            PacketFlow::ServerToClient => {
                if id == 0x01 {
                    Ok(LoginPacket::ClientboundHelloPacket(ClientboundHelloPacket { body }))
                } else if id == 0x04 {
                    Ok(LoginPacket::ClientboundCustomQueryPacket(ClientboundCustomQueryPacket { body }))
                } else {
                    Err(LoginReadError::UnknownPacketId(PacketFlow::ServerToClient, id))
                }
            },
            PacketFlow::ClientToServer => {
                if id == 0x00 {
                    Ok(LoginPacket::ServerboundHelloPacket(ServerboundHelloPacket { body }))
                } else {
                    Err(LoginReadError::UnknownPacketId(PacketFlow::ClientToServer, id))
                }
            },
        }
    }
}

} // verus!
