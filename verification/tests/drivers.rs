use oshit::drivers::sdcard::{
    card_info, parse_cid, parse_csd, sd_init_step, InitError, SdAction, SdCommand, SdInitState, CMD,
};

fn v2_csd() -> [u8; 18] {
    // A CSD 2.0 register of a 16 GB card.
    [0x40, 0x0E, 0x00, 0x32, 0x5B, 0x59, 0x00, 0x00, 0x76, 0xB2, 0x7F, 0x80, 0x0A, 0x40, 0x00, 0x97, 0, 0]
}

#[test]
fn csd_version_two_fields() {
    let c = parse_csd(v2_csd());
    assert_eq!(c.CSDStruct, 1);
    assert_eq!(c.TAAC, 0x0E);
    assert_eq!(c.MaxBusClkFrec, 0x32);
    assert_eq!(c.CardComdClasses, 0x5B5);
    assert_eq!(c.RdBlockLen, 9);
    assert_eq!(c.DeviceSize, 0x76B2);
    assert_eq!(c.DeviceSizeMult, 0);
    assert_eq!(c.EraseGrSize, 1);
    assert_eq!(c.EraseGrMul, 0x7F);
    assert_eq!(c.MaxWrBlockLen, 9);
    assert_eq!(c.CSD_CRC, 0x4B);
    assert_eq!(c.Reserved4, 1);
    let info = card_info(c, parse_cid([0u8; 18]));
    assert_eq!(info.CardBlockSize, 512);
    assert_eq!(info.CardBlockCnt, (0x76B2 + 1) * 1024);
    assert_eq!(info.CardCapacity, (0x76B2 + 1) * 1024 * 512);
}

#[test]
fn csd_version_one_fields() {
    let mut b = [0u8; 18];
    b[5] = 0x0A;
    b[6] = 0x03;
    b[7] = 0xFF;
    b[8] = 0xC0;
    b[9] = 0x03;
    b[10] = 0x80;
    let c = parse_csd(b);
    assert_eq!(c.CSDStruct, 0);
    assert_eq!(c.RdBlockLen, 10);
    assert_eq!(c.DeviceSize, 0xFFF);
    assert_eq!(c.DeviceSizeMult, 7);
    assert_eq!(c.TAAC, 0);
    assert_eq!(c.Reserved4, 10);
    let info = card_info(c, parse_cid(b));
    assert_eq!(info.CardBlockSize, 1024);
    assert_eq!(info.CardBlockCnt, 0x1000 * 512);
    assert_eq!(info.CardCapacity, 0x1000 * 512 * 1024);
}

#[test]
fn cid_fields() {
    let b = [0x03, 0x53, 0x44, 0x53, 0x44, 0x31, 0x36, 0x47, 0x80, 0x12, 0x34, 0x56, 0x78, 0x01, 0x5A, 0xFF, 0, 0];
    let c = parse_cid(b);
    assert_eq!(c.ManufacturerID, 3);
    assert_eq!(c.OEM_AppliID, 0x5344);
    assert_eq!(c.ProdName1, 0x5344_3136);
    assert_eq!(c.ProdName2, 0x47);
    assert_eq!(c.ProdSN, 0x1234_5678);
    assert_eq!(c.Reserved1, 0);
    assert_eq!(c.ManufactDate, 0x15A);
    assert_eq!(c.CID_CRC, 0x7F);
    assert_eq!(c.Reserved2, 1);
}

fn send(cmd: CMD, arg: u32, crc: u8, reply_len: u8) -> SdAction {
    SdAction::Send(SdCommand { cmd, arg, crc, reply_len })
}

#[test]
fn init_handshake_succeeds() {
    let f = [0u8; 4];
    let (s, a) = sd_init_step(SdInitState::Start, 0, f);
    assert_eq!(a, send(CMD::CMD0, 0, 0x95, 0));
    assert_eq!(CMD::CMD0.number(), 0);
    let (s, a) = sd_init_step(s, 1, f);
    assert_eq!(a, send(CMD::CMD8, 0x1AA, 0x87, 4));
    let (s, a) = sd_init_step(s, 1, f);
    assert_eq!(a, send(CMD::CMD55, 0, 0, 0));
    let (s, a) = sd_init_step(s, 1, f);
    assert_eq!(a, send(CMD::ACMD41, 0x4000_0000, 0, 0));
    assert_eq!(CMD::ACMD41.number(), 41);
    // not ready yet: the lead-in comes again
    let (s, a) = sd_init_step(s, 1, f);
    assert_eq!(a, send(CMD::CMD55, 0, 0, 0));
    let (s, _) = sd_init_step(s, 1, f);
    let (s, a) = sd_init_step(s, 0, f);
    assert_eq!(a, send(CMD::CMD58, 0, 1, 4));
    let (s, a) = sd_init_step(s, 0, [0x40, 0, 0, 0]);
    assert_eq!(a, SdAction::Finish(false));
    assert_eq!(s, SdInitState::Done(false));
    let (_, a) = sd_init_step(SdInitState::AwaitOcr(3), 0, [0x80, 0, 0, 0]);
    assert_eq!(a, SdAction::Finish(true));
}

#[test]
fn init_handshake_failures() {
    let f = [0u8; 4];
    let (s, a) = sd_init_step(SdInitState::AwaitReset, 0xFF, f);
    assert_eq!(a, SdAction::Fail(InitError::CMDFailed(CMD::CMD0, 0xFF)));
    assert_eq!(s, SdInitState::Failed(InitError::CMDFailed(CMD::CMD0, 0xFF)));
    let (_, a) = sd_init_step(SdInitState::AwaitVoltage, 5, f);
    assert_eq!(a, SdAction::Fail(InitError::CMDFailed(CMD::CMD8, 5)));
    // the start of initialization is tried 255 times
    let mut s = SdInitState::AwaitAppCmd(255);
    let mut tries = 0;
    loop {
        let (s1, _) = sd_init_step(s, 1, f);
        let (s2, a) = sd_init_step(s1, 1, f);
        tries += 1;
        if let SdAction::Fail(e) = a {
            assert_eq!(e, InitError::CMDFailed(CMD::ACMD41, 1));
            break;
        }
        s = s2;
    }
    assert_eq!(tries, 255);
}
