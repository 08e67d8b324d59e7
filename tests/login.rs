use azalea_nbt::login::{
    ClientboundGameProfilePacket, ClientboundHelloPacket, GameProfile, LoginPacket, LoginReadError,
    PacketFlow, ServerboundHelloPacket,
};

#[test]
fn login_packet_ids() {
    let hello = LoginPacket::ClientboundHelloPacket(ClientboundHelloPacket { body: vec![1] });
    assert_eq!(hello.id(), 0x01);
    let server_hello = LoginPacket::ServerboundHelloPacket(ServerboundHelloPacket { body: vec![] });
    assert_eq!(server_hello.id(), 0x00);
}

#[test]
fn login_packet_read_dispatches_by_flow_and_id() {
    let p = LoginPacket::read(0x04, &PacketFlow::ServerToClient, vec![5, 6]).unwrap();
    assert_eq!(p.id(), 0x04);
    let mut buf = vec![9];
    p.write(&mut buf);
    assert_eq!(buf, vec![9, 5, 6]);
    let p = LoginPacket::read(0x00, &PacketFlow::ClientToServer, vec![]).unwrap();
    assert!(matches!(p, LoginPacket::ServerboundHelloPacket(_)));
}

#[test]
fn login_packet_read_rejects_unknown_ids() {
    assert_eq!(
        LoginPacket::read(0x00, &PacketFlow::ServerToClient, vec![]).unwrap_err(),
        LoginReadError::UnknownPacketId(PacketFlow::ServerToClient, 0x00)
    );
    assert_eq!(
        LoginPacket::read(0x01, &PacketFlow::ClientToServer, vec![]).unwrap_err(),
        LoginReadError::UnknownPacketId(PacketFlow::ClientToServer, 0x01)
    );
}

#[test]
fn game_profile_write_then_read() {
    let packet = ClientboundGameProfilePacket {
        game_profile: GameProfile { uuid: 0x0001_0203_0405_0607_0809_0A0B_0C0D_0E0F, name: "Steve".to_string() },
    };
    let mut buf = Vec::new();
    packet.write(&mut buf);
    let mut expected: Vec<u8> = (0u8..16).collect();
    expected.push(5);
    expected.extend_from_slice(b"Steve");
    assert_eq!(buf, expected);
    let back = ClientboundGameProfilePacket::read(&buf).unwrap();
    assert_eq!(back.id(), 0x02);
    match back {
        LoginPacket::ClientboundGameProfilePacket(p) => {
            assert_eq!(p.game_profile.uuid, packet.game_profile.uuid);
            assert_eq!(p.game_profile.name, "Steve");
        },
        _ => panic!("wrong packet"),
    }
    let as_login = packet.get();
    assert_eq!(as_login.id(), 0x02);
}

#[test]
fn game_profile_read_errors() {
    let mut body = vec![0u8; 16];
    assert_eq!(ClientboundGameProfilePacket::read(&body).unwrap_err(), LoginReadError::UnexpectedEndOfInput);
    body.push(65);
    assert_eq!(ClientboundGameProfilePacket::read(&body).unwrap_err(), LoginReadError::StringTooLong);
    body[16] = 2;
    body.push(0xFF);
    body.push(0xFF);
    assert_eq!(ClientboundGameProfilePacket::read(&body).unwrap_err(), LoginReadError::InvalidStringEncoding);
    let p = LoginPacket::read(0x02, &PacketFlow::ServerToClient, vec![0u8; 3]);
    assert_eq!(p.unwrap_err(), LoginReadError::UnknownPacketId(PacketFlow::ServerToClient, 0x02));
}
