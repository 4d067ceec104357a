//! The decisions of the SD card driver: decoding the card's registers, the
//! card's size, and the start-up handshake as a state machine. The SPI
//! transfers themselves are the caller's.
use vstd::prelude::*;

verus! {

/// The commands of the SD card protocol that the driver sends.
#[derive(Clone, Copy, PartialEq, Eq, Structural, Debug)]
pub enum CMD {
    /// Software reset.
    CMD0,
    /// Check voltage range (SDC V2).
    CMD8,
    /// Read CSD register.
    CMD9,
    /// Read CID register.
    CMD10,
    /// Stop to read data.
    CMD12,
    /// Change R/W block size.
    CMD16,
    /// Read block.
    CMD17,
    /// Read multiple blocks.
    CMD18,
    /// Number of blocks to erase (SDC).
    ACMD23,
    /// Write a block.
    CMD24,
    /// Write multiple blocks.
    CMD25,
    /// Initiate initialization process (SDC).
    ACMD41,
    /// Leading command for ACMD*.
    CMD55,
    /// Read OCR.
    CMD58,
    /// Enable/disable CRC check.
    CMD59,
}

/// The command index sent on the wire for each command.
pub open spec fn cmd_number(c: CMD) -> u8 {
    match c {
        CMD::CMD0 => 0,
        CMD::CMD8 => 8,
        CMD::CMD9 => 9,
        CMD::CMD10 => 10,
        CMD::CMD12 => 12,
        CMD::CMD16 => 16,
        CMD::CMD17 => 17,
        CMD::CMD18 => 18,
        CMD::ACMD23 => 23,
        CMD::CMD24 => 24,
        CMD::CMD25 => 25,
        CMD::ACMD41 => 41,
        CMD::CMD55 => 55,
        CMD::CMD58 => 58,
        CMD::CMD59 => 59,
    }
}

impl CMD {
    /// The command index sent on the wire.
    pub fn number(&self) -> (r: u8)
        ensures
            r == cmd_number(*self),
    {
        match self {
            CMD::CMD0 => 0,
            CMD::CMD8 => 8,
            CMD::CMD9 => 9,
            CMD::CMD10 => 10,
            CMD::CMD12 => 12,
            CMD::CMD16 => 16,
            CMD::CMD17 => 17,
            CMD::CMD18 => 18,
            CMD::ACMD23 => 23,
            CMD::CMD24 => 24,
            CMD::CMD25 => 25,
            CMD::ACMD41 => 41,
            CMD::CMD55 => 55,
            CMD::CMD58 => 58,
            CMD::CMD59 => 59,
        }
    }
}

/// Why the start-up of a card failed.
#[derive(Clone, Copy, PartialEq, Eq, Structural, Debug)]
pub enum InitError {
    /// A command got an unexpected response.
    CMDFailed(CMD, u8),
    /// The card's registers could not be read.
    CannotGetCardInfo,
}

/// Card Specific Data: the CSD register, field by field.
#[allow(non_snake_case)]
#[derive(Clone, Copy, PartialEq, Eq, Structural, Debug)]
pub struct SDCardCSD {
    /// CSD structure.
    pub CSDStruct: u8,
    /// System specification version.
    pub SysSpecVersion: u8,
    /// Reserved.
    pub Reserved1: u8,
    /// Data read access-time 1.
    pub TAAC: u8,
    /// Data read access-time 2 in clock cycles.
    pub NSAC: u8,
    /// Max. bus clock frequency.
    pub MaxBusClkFrec: u8,
    /// Card command classes.
    pub CardComdClasses: u16,
    /// Max. read data block length.
    pub RdBlockLen: u8,
    /// Partial blocks for read allowed.
    pub PartBlockRead: u8,
    /// Write block misalignment.
    pub WrBlockMisalign: u8,
    /// Read block misalignment.
    pub RdBlockMisalign: u8,
    /// DSR implemented.
    pub DSRImpl: u8,
    /// Reserved.
    pub Reserved2: u8,
    /// Device size.
    pub DeviceSize: u32,
    /// Device size multiplier.
    pub DeviceSizeMult: u8,
    /// Erase group size.
    pub EraseGrSize: u8,
    /// Erase group size multiplier.
    pub EraseGrMul: u8,
    /// Write protect group size.
    pub WrProtectGrSize: u8,
    /// Write protect group enable.
    pub WrProtectGrEnable: u8,
    /// Manufacturer default ECC.
    pub ManDeflECC: u8,
    /// Write speed factor.
    pub WrSpeedFact: u8,
    /// Max. write data block length.
    pub MaxWrBlockLen: u8,
    /// Partial blocks for write allowed.
    pub WriteBlockPaPartial: u8,
    /// Reserved.
    pub Reserved3: u8,
    /// Content protection application.
    pub ContentProtectAppli: u8,
    /// File format group.
    pub FileFormatGroup: u8,
    /// Copy flag (OTP).
    pub CopyFlag: u8,
    /// Permanent write protection.
    pub PermWrProtect: u8,
    /// Temporary write protection.
    pub TempWrProtect: u8,
    /// File format.
    pub FileFormat: u8,
    /// ECC code.
    pub ECC: u8,
    /// CSD CRC.
    pub CSD_CRC: u8,
    /// Reserved.
    pub Reserved4: u8,
}

/// The CSD register that `parse_csd` decodes from the bytes `c`: for a version
/// 1.0 register (structure field zero) only the block length and the device
/// size and multiplier, with `Reserved4` ten and every other field zero; for
/// a later version every field, with the device size of version 2.0 and the
/// multiplier zero.
pub open spec fn csd_of(c: [u8; 18]) -> SDCardCSD {
    if c[0] >> 6u8 == 0 {
        SDCardCSD {
            CSDStruct: 0,
            SysSpecVersion: 0,
            Reserved1: 0,
            TAAC: 0,
            NSAC: 0,
            MaxBusClkFrec: 0,
            CardComdClasses: 0,
            RdBlockLen: c[5] & 0x0F,
            PartBlockRead: 0,
            WrBlockMisalign: 0,
            RdBlockMisalign: 0,
            DSRImpl: 0,
            Reserved2: 0,
            DeviceSize: ((((c[6] & 0x3) as u32) << 10u32) | ((c[7] as u32) << 2u32) | ((c[8] >> 6u8) as u32)),
            DeviceSizeMult: (((c[9] & 3) << 1u8) | (c[10] >> 7u8)),
            EraseGrSize: 0,
            EraseGrMul: 0,
            WrProtectGrSize: 0,
            WrProtectGrEnable: 0,
            ManDeflECC: 0,
            WrSpeedFact: 0,
            MaxWrBlockLen: 0,
            WriteBlockPaPartial: 0,
            Reserved3: 0,
            ContentProtectAppli: 0,
            FileFormatGroup: 0,
            CopyFlag: 0,
            PermWrProtect: 0,
            TempWrProtect: 0,
            FileFormat: 0,
            ECC: 0,
            CSD_CRC: 0,
            Reserved4: 10,
        }
    } else {
        SDCardCSD {
            CSDStruct: (c[0] & 0xC0) >> 6u8,
            SysSpecVersion: (c[0] & 0x3C) >> 2u8,
            Reserved1: c[0] & 0x03,
            TAAC: c[1],
            NSAC: c[2],
            MaxBusClkFrec: c[3],
            CardComdClasses: (((c[4] as u16) << 4u16) | (((c[5] as u16) & 0xF0) >> 4u16)),
            RdBlockLen: c[5] & 0x0F,
            PartBlockRead: (c[6] & 0x80) >> 7u8,
            WrBlockMisalign: (c[6] & 0x40) >> 6u8,
            RdBlockMisalign: (c[6] & 0x20) >> 5u8,
            DSRImpl: (c[6] & 0x10) >> 4u8,
            Reserved2: 0,
            DeviceSize: ((((c[7] as u32) & 0x3F) << 16u32) | ((c[8] as u32) << 8u32) | (c[9] as u32)),
            DeviceSizeMult: 0,
            EraseGrSize: (c[10] & 0x40) >> 6u8,
            EraseGrMul: (((c[10] & 0x3F) << 1u8) | ((c[11] & 0x80) >> 7u8)),
            WrProtectGrSize: c[11] & 0x7F,
            WrProtectGrEnable: (c[12] & 0x80) >> 7u8,
            ManDeflECC: (c[12] & 0x60) >> 5u8,
            WrSpeedFact: (c[12] & 0x1C) >> 2u8,
            MaxWrBlockLen: (((c[12] & 0x03) << 2u8) | ((c[13] & 0xC0) >> 6u8)),
            WriteBlockPaPartial: (c[13] & 0x20) >> 5u8,
            Reserved3: 0,
            ContentProtectAppli: c[13] & 0x01,
            FileFormatGroup: (c[14] & 0x80) >> 7u8,
            CopyFlag: (c[14] & 0x40) >> 6u8,
            PermWrProtect: (c[14] & 0x20) >> 5u8,
            TempWrProtect: (c[14] & 0x10) >> 4u8,
            FileFormat: (c[14] & 0x0C) >> 2u8,
            ECC: c[14] & 0x03,
            CSD_CRC: (c[15] & 0xFE) >> 1u8,
            Reserved4: 1,
        }
    }
}

/// Decodes the 16 bytes of a CSD register read from the card (two CRC bytes
/// follow them).
pub fn parse_csd(csd_tab: [u8; 18]) -> (r: SDCardCSD)
    ensures
        r == csd_of(csd_tab),
{
    let c = csd_tab;
    if c[0] >> 6u8 == 0 {
        SDCardCSD {
            CSDStruct: 0,
            SysSpecVersion: 0,
            Reserved1: 0,
            TAAC: 0,
            NSAC: 0,
            MaxBusClkFrec: 0,
            CardComdClasses: 0,
            RdBlockLen: c[5] & 0x0F,
            PartBlockRead: 0,
            WrBlockMisalign: 0,
            RdBlockMisalign: 0,
            DSRImpl: 0,
            Reserved2: 0,
            DeviceSize: ((((c[6] & 0x3) as u32) << 10u32) | ((c[7] as u32) << 2u32) | ((c[8] >> 6u8) as u32)),
            DeviceSizeMult: (((c[9] & 3) << 1u8) | (c[10] >> 7u8)),
            EraseGrSize: 0,
            EraseGrMul: 0,
            WrProtectGrSize: 0,
            WrProtectGrEnable: 0,
            ManDeflECC: 0,
            WrSpeedFact: 0,
            MaxWrBlockLen: 0,
            WriteBlockPaPartial: 0,
            Reserved3: 0,
            ContentProtectAppli: 0,
            FileFormatGroup: 0,
            CopyFlag: 0,
            PermWrProtect: 0,
            TempWrProtect: 0,
            FileFormat: 0,
            ECC: 0,
            CSD_CRC: 0,
            Reserved4: 10,
        }
    } else {
        SDCardCSD {
            CSDStruct: (c[0] & 0xC0) >> 6u8,
            SysSpecVersion: (c[0] & 0x3C) >> 2u8,
            Reserved1: c[0] & 0x03,
            TAAC: c[1],
            NSAC: c[2],
            MaxBusClkFrec: c[3],
            CardComdClasses: (((c[4] as u16) << 4u16) | (((c[5] as u16) & 0xF0) >> 4u16)),
            RdBlockLen: c[5] & 0x0F,
            PartBlockRead: (c[6] & 0x80) >> 7u8,
            WrBlockMisalign: (c[6] & 0x40) >> 6u8,
            RdBlockMisalign: (c[6] & 0x20) >> 5u8,
            DSRImpl: (c[6] & 0x10) >> 4u8,
            Reserved2: 0,
            DeviceSize: ((((c[7] as u32) & 0x3F) << 16u32) | ((c[8] as u32) << 8u32) | (c[9] as u32)),
            DeviceSizeMult: 0,
            EraseGrSize: (c[10] & 0x40) >> 6u8,
            EraseGrMul: (((c[10] & 0x3F) << 1u8) | ((c[11] & 0x80) >> 7u8)),
            WrProtectGrSize: c[11] & 0x7F,
            WrProtectGrEnable: (c[12] & 0x80) >> 7u8,
            ManDeflECC: (c[12] & 0x60) >> 5u8,
            WrSpeedFact: (c[12] & 0x1C) >> 2u8,
            MaxWrBlockLen: (((c[12] & 0x03) << 2u8) | ((c[13] & 0xC0) >> 6u8)),
            WriteBlockPaPartial: (c[13] & 0x20) >> 5u8,
            Reserved3: 0,
            ContentProtectAppli: c[13] & 0x01,
            FileFormatGroup: (c[14] & 0x80) >> 7u8,
            CopyFlag: (c[14] & 0x40) >> 6u8,
            PermWrProtect: (c[14] & 0x20) >> 5u8,
            TempWrProtect: (c[14] & 0x10) >> 4u8,
            FileFormat: (c[14] & 0x0C) >> 2u8,
            ECC: c[14] & 0x03,
            CSD_CRC: (c[15] & 0xFE) >> 1u8,
            Reserved4: 1,
        }
    }
}

/// Card Identification Data: the CID register, field by field.
#[allow(non_snake_case)]
#[derive(Clone, Copy, PartialEq, Eq, Structural, Debug)]
pub struct SDCardCID {
    /// Manufacturer ID.
    pub ManufacturerID: u8,
    /// OEM/Application ID.
    pub OEM_AppliID: u16,
    /// Product name, first part.
    pub ProdName1: u32,
    /// Product name, second part.
    pub ProdName2: u8,
    /// Product revision.
    pub ProdRev: u8,
    /// Product serial number.
    pub ProdSN: u32,
    /// Reserved.
    pub Reserved1: u8,
    /// Manufacturing date.
    pub ManufactDate: u16,
    /// CID CRC.
    pub CID_CRC: u8,
    /// Always one.
    pub Reserved2: u8,
}

/// The CID register that `parse_cid` decodes from the bytes `c`: big-endian
/// fields in the order of the register.
pub open spec fn cid_of(c: [u8; 18]) -> SDCardCID {
    SDCardCID {
        ManufacturerID: c[0],
        OEM_AppliID: ((c[1] as u16) << 8u16) | (c[2] as u16),
        ProdName1: ((c[3] as u32) << 24u32) | ((c[4] as u32) << 16u32) | ((c[5] as u32) << 8u32) | (c[6] as u32),
        ProdName2: c[7],
        ProdRev: c[8],
        ProdSN: ((c[9] as u32) << 24u32) | ((c[10] as u32) << 16u32) | ((c[11] as u32) << 8u32) | (c[12] as u32),
        Reserved1: (c[13] & 0xF0) >> 4u8,
        ManufactDate: (((c[13] as u16) & 0x0F) << 8u16) | (c[14] as u16),
        CID_CRC: (c[15] & 0xFE) >> 1u8,
        Reserved2: 1,
    }
}

/// Decodes the 16 bytes of a CID register read from the card (two CRC bytes
/// follow them).
pub fn parse_cid(cid_tab: [u8; 18]) -> (r: SDCardCID)
    ensures
        r == cid_of(cid_tab),
{
    let c = cid_tab;
    SDCardCID {
        ManufacturerID: c[0],
        OEM_AppliID: ((c[1] as u16) << 8u16) | (c[2] as u16),
        ProdName1: ((c[3] as u32) << 24u32) | ((c[4] as u32) << 16u32) | ((c[5] as u32) << 8u32) | (c[6] as u32),
        ProdName2: c[7],
        ProdRev: c[8],
        ProdSN: ((c[9] as u32) << 24u32) | ((c[10] as u32) << 16u32) | ((c[11] as u32) << 8u32) | (c[12] as u32),
        Reserved1: (c[13] & 0xF0) >> 4u8,
        ManufactDate: (((c[13] as u16) & 0x0F) << 8u16) | (c[14] as u16),
        CID_CRC: (c[15] & 0xFE) >> 1u8,
        Reserved2: 1,
    }
}

/// What the driver knows of a card: its registers, and its size.
#[allow(non_snake_case)]
#[derive(Clone, Copy, PartialEq, Eq, Structural, Debug)]
pub struct SDCardInfo {
    pub SD_csd: SDCardCSD,
    pub SD_cid: SDCardCID,
    /// Card capacity in bytes.
    pub CardCapacity: u64,
    /// Number of blocks.
    pub CardBlockCnt: u64,
    /// Block size in bytes.
    pub CardBlockSize: u64,
}

/// The size of a card from its registers: for a version 1.0 CSD, blocks of
/// `2^RdBlockLen` bytes, `(DeviceSize + 1) * 2^(DeviceSizeMult + 2)` of them;
/// for a later one, blocks of `2^RdBlockLen` bytes, `(DeviceSize + 1) * 1024`
/// of them, and a capacity counted in blocks of 512 bytes.
pub fn card_info(csd: SDCardCSD, cid: SDCardCID) -> (r: SDCardInfo)
    requires
        csd.RdBlockLen < 16,
        csd.DeviceSizeMult < 8,
        csd.DeviceSize < 0x40_0000,
    ensures
        r.SD_csd == csd,
        r.SD_cid == cid,
        r.CardBlockSize == 1u64 << (csd.RdBlockLen as u64),
        csd.CSDStruct == 0 ==> r.CardBlockCnt == (csd.DeviceSize + 1) * (1u64 << ((csd.DeviceSizeMult + 2) as u64))
            && r.CardCapacity == r.CardBlockCnt * r.CardBlockSize,
        csd.CSDStruct != 0 ==> r.CardBlockCnt == (csd.DeviceSize + 1) * 1024 && r.CardCapacity == r.CardBlockCnt
            * 512,
{
    let rl = csd.RdBlockLen as u64;
    let bs = 1u64 << rl;
    proof {
        assert(rl < 16 ==> (1u64 << rl) <= 32768) by (bit_vector);
    }
    if csd.CSDStruct == 0 {
        let m = (csd.DeviceSizeMult + 2) as u64;
        let mult = 1u64 << m;
        proof {
            assert(m < 10 ==> (1u64 << m) <= 512) by (bit_vector);
        }
        let ds = (csd.DeviceSize + 1) as u64;
        proof {
            assert(ds * mult <= 0x40_0000 * 512) by (nonlinear_arith)
                requires
                    ds <= 0x40_0000,
                    mult <= 512,
            ;
        }
        let cnt = ds * mult;
        proof {
            assert(cnt * bs <= 0x40_0000 * 512 * 32768) by (nonlinear_arith)
                requires
                    cnt <= 0x40_0000 * 512,
                    bs <= 32768,
            ;
        }
        SDCardInfo { SD_csd: csd, SD_cid: cid, CardCapacity: cnt * bs, CardBlockCnt: cnt, CardBlockSize: bs }
    } else {
        let cnt = (csd.DeviceSize as u64 + 1) * 1024;
        SDCardInfo { SD_csd: csd, SD_cid: cid, CardCapacity: cnt * 512, CardBlockCnt: cnt, CardBlockSize: bs }
    }
}

/// The fields of a CSD register as its layout places them (see `parse_csd`): the
/// structure version in the top two bits of byte 0; the read block length in the
/// low four bits of byte 5; for version 1.0 (version bits zero) the 12-bit
/// `C_SIZE` over bytes 6 to 8 and the 3-bit `C_SIZE_MULT` over bytes 9 and 10;
/// for version 2.0 the 22-bit `C_SIZE` over bytes 7 to 9.
pub proof fn lemma_csd_fields(c: [u8; 18])
    ensures
        csd_of(c).RdBlockLen == c[5] % 16,
        c[0] >= 64 ==> csd_of(c).CSDStruct == c[0] / 64,
        c[0] >= 64 ==> csd_of(c).DeviceSize == (c[7] % 64) * 65536 + c[8] * 256 + c[9],
        c[0] < 64 ==> csd_of(c).DeviceSize == (c[6] % 4) * 1024 + c[7] * 4 + c[8] / 64,
        c[0] < 64 ==> csd_of(c).DeviceSizeMult == (c[9] % 4) * 2 + c[10] / 128,
{
    let (b0, b5, b6, b7, b8, b9, b10) = (c[0], c[5], c[6], c[7], c[8], c[9], c[10]);
    assert(((b0 >> 6u8 == 0) == (b0 < 64)) && (b5 & 0x0F) == b5 % 16 && (b0 & 0xC0) >> 6u8 == b0 / 64
        && ((((b7 as u32) & 0x3F) << 16u32) | ((b8 as u32) << 8u32) | (b9 as u32)) == (b7 % 64)
        * 65536 + b8 * 256 + b9 && ((((b6 & 0x3) as u32) << 10u32) | ((b7 as u32) << 2u32) | ((b8
        >> 6u8) as u32)) == (b6 % 4) * 1024 + b7 * 4 + b8 / 64 && (((b9 & 3) << 1u8) | (b10 >> 7u8))
        == (b9 % 4) * 2 + b10 / 128) by (bit_vector);
}

/// The registers that `parse_csd` gives meet what `card_info` needs.
pub proof fn lemma_parsed_csd_sizes(c: [u8; 18])
    ensures
        csd_of(c).RdBlockLen < 16,
        csd_of(c).DeviceSizeMult < 8,
        csd_of(c).DeviceSize < 0x40_0000,
{
    let (b5, b6, b7, b8, b9, b10) = (c[5], c[6], c[7], c[8], c[9], c[10]);
    assert(b5 & 0x0F < 16 && (((b9 & 3) << 1u8) | (b10 >> 7u8)) < 8 && ((((b6 & 0x3) as u32) << 10u32)
        | ((b7 as u32) << 2u32) | ((b8 >> 6u8) as u32)) < 0x40_0000 && ((((b7 as u32) & 0x3F) << 16u32)
        | ((b8 as u32) << 8u32) | (b9 as u32)) < 0x40_0000) by (bit_vector);
}

/// A command to send: its index, its argument and its CRC byte, and how many
/// bytes the card sends after its response, which the driver reads before it
/// ends the command.
#[derive(Clone, Copy, PartialEq, Eq, Structural, Debug)]
pub struct SdCommand {
    pub cmd: CMD,
    pub arg: u32,
    pub crc: u8,
    pub reply_len: u8,
}

/// Where the start-up handshake of a card stands: which response it waits
/// for, with the tries left for the repeated commands.
#[derive(Clone, Copy, PartialEq, Eq, Structural, Debug)]
pub enum SdInitState {
    /// Nothing sent yet.
    Start,
    /// Waits for the response to the reset.
    AwaitReset,
    /// Waits for the response to the voltage check.
    AwaitVoltage,
    /// Waits for the response to the lead-in of an application command.
    AwaitAppCmd(u32),
    /// Waits for the response to the start of initialization.
    AwaitOpCond(u32),
    /// Waits for the response to the OCR read, and the OCR.
    AwaitOcr(u32),
    /// Started; whether the card takes byte addresses.
    Done(bool),
    /// Failed.
    Failed(InitError),
}

/// What the driver does next in the handshake.
#[derive(Clone, Copy, PartialEq, Eq, Structural, Debug)]
pub enum SdAction {
    /// Send the command, then hand its response (and, after the OCR read, the
    /// four bytes that follow it) to `sd_init_step`.
    Send(SdCommand),
    /// The card is started; whether it takes byte addresses.
    Finish(bool),
    /// The start-up failed.
    Fail(InitError),
}

/// How many times the driver tries the start of initialization and the OCR
/// read.
pub const SD_INIT_TRIES: u32 = 255;

/// The commands of the handshake: the reset, the voltage check (followed by
/// four bytes of reply), the lead-in of an application command, the start of
/// initialization, and the OCR read (followed by the four bytes of the OCR).
pub open spec fn handshake_command(cmd: CMD) -> SdCommand {
    match cmd {
        CMD::CMD0 => SdCommand { cmd, arg: 0, crc: 0x95, reply_len: 0 },
        CMD::CMD8 => SdCommand { cmd, arg: 0x01AA, crc: 0x87, reply_len: 4 },
        CMD::CMD55 => SdCommand { cmd, arg: 0, crc: 0, reply_len: 0 },
        CMD::ACMD41 => SdCommand { cmd, arg: 0x4000_0000, crc: 0, reply_len: 0 },
        CMD::CMD58 => SdCommand { cmd, arg: 0, crc: 1, reply_len: 4 },
        _ => SdCommand { cmd, arg: 0, crc: 0, reply_len: 0 },
    }
}

/// The command `cmd` as the handshake sends it.
fn command(cmd: CMD) -> (r: SdCommand)
    ensures
        r == handshake_command(cmd),
{
    match cmd {
        CMD::CMD0 => SdCommand { cmd, arg: 0, crc: 0x95, reply_len: 0 },
        CMD::CMD8 => SdCommand { cmd, arg: 0x01AA, crc: 0x87, reply_len: 4 },
        CMD::CMD55 => SdCommand { cmd, arg: 0, crc: 0, reply_len: 0 },
        CMD::ACMD41 => SdCommand { cmd, arg: 0x4000_0000, crc: 0, reply_len: 0 },
        CMD::CMD58 => SdCommand { cmd, arg: 0, crc: 1, reply_len: 4 },
        _ => SdCommand { cmd, arg: 0, crc: 0, reply_len: 0 },
    }
}

/// Sending `cmd` (see `handshake_command`) and waiting in state `next`.
pub open spec fn send_then(next: SdInitState, cmd: CMD) -> (SdInitState, SdAction) {
    (next, SdAction::Send(handshake_command(cmd)))
}

/// Failing with the error that `cmd` answered `resp`.
pub open spec fn fail_with(cmd: CMD, resp: u8) -> (SdInitState, SdAction) {
    (SdInitState::Failed(InitError::CMDFailed(cmd, resp)), SdAction::Fail(InitError::CMDFailed(cmd, resp)))
}

/// The next state and action of the handshake in state `s` on the response
/// `resp` (with the four bytes `frame` that follow the response of an OCR
/// read): reset, wanting 1; voltage check, wanting 1; then the lead-in, wanting
/// 1, and the start of initialization until it answers 0, at most
/// `SD_INIT_TRIES` times; then the OCR read until it answers 0, as many times.
/// The card takes byte addresses when bit 6 of the OCR's first byte is clear. A
/// failed repetition reports the response of the voltage check, 1.
pub open spec fn sd_init_next(s: SdInitState, resp: u8, frame: [u8; 4]) -> (SdInitState, SdAction) {
    match s {
        SdInitState::Start => send_then(SdInitState::AwaitReset, CMD::CMD0),
        SdInitState::AwaitReset => if resp != 1 {
            fail_with(CMD::CMD0, resp)
        } else {
            send_then(SdInitState::AwaitVoltage, CMD::CMD8)
        },
        SdInitState::AwaitVoltage => if resp != 1 {
            fail_with(CMD::CMD8, resp)
        } else {
            send_then(SdInitState::AwaitAppCmd(SD_INIT_TRIES), CMD::CMD55)
        },
        SdInitState::AwaitAppCmd(left) => if resp != 1 {
            fail_with(CMD::CMD55, resp)
        } else {
            send_then(SdInitState::AwaitOpCond(left), CMD::ACMD41)
        },
        SdInitState::AwaitOpCond(left) => if resp == 0 {
            send_then(SdInitState::AwaitOcr(SD_INIT_TRIES), CMD::CMD58)
        } else if left <= 1 {
            fail_with(CMD::ACMD41, 1)
        } else {
            send_then(SdInitState::AwaitAppCmd((left - 1) as u32), CMD::CMD55)
        },
        SdInitState::AwaitOcr(left) => if resp == 0 {
            (SdInitState::Done(frame[0] & 0x40 == 0), SdAction::Finish(frame[0] & 0x40 == 0))
        } else if left <= 1 {
            fail_with(CMD::CMD58, 1)
        } else {
            send_then(SdInitState::AwaitOcr((left - 1) as u32), CMD::CMD58)
        },
        SdInitState::Done(b) => (s, SdAction::Finish(b)),
        SdInitState::Failed(e) => (s, SdAction::Fail(e)),
    }
}

/// One step of the start-up handshake of a card (see `sd_init_next`): the
/// caller sends the command of each `Send`, reads the bytes that follow its
/// response (`reply_len` of them), and hands back the response, and those
/// bytes after an OCR read.
pub fn sd_init_step(state: SdInitState, response: u8, frame: [u8; 4]) -> (r: (SdInitState, SdAction))
    ensures
        r == sd_init_next(state, response, frame),
{
    let (next, cmd) = match state {
        SdInitState::Start => (SdInitState::AwaitReset, CMD::CMD0),
        SdInitState::AwaitReset => {
            if response != 1 {
                let e = InitError::CMDFailed(CMD::CMD0, response);
                return (SdInitState::Failed(e), SdAction::Fail(e));
            }
            (SdInitState::AwaitVoltage, CMD::CMD8)
        },
        SdInitState::AwaitVoltage => {
            if response != 1 {
                let e = InitError::CMDFailed(CMD::CMD8, response);
                return (SdInitState::Failed(e), SdAction::Fail(e));
            }
            (SdInitState::AwaitAppCmd(SD_INIT_TRIES), CMD::CMD55)
        },
        SdInitState::AwaitAppCmd(left) => {
            if response != 1 {
                let e = InitError::CMDFailed(CMD::CMD55, response);
                return (SdInitState::Failed(e), SdAction::Fail(e));
            }
            (SdInitState::AwaitOpCond(left), CMD::ACMD41)
        },
        SdInitState::AwaitOpCond(left) => {
            if response == 0 {
                (SdInitState::AwaitOcr(SD_INIT_TRIES), CMD::CMD58)
            } else if left <= 1 {
                let e = InitError::CMDFailed(CMD::ACMD41, 1);
                return (SdInitState::Failed(e), SdAction::Fail(e));
            } else {
                (SdInitState::AwaitAppCmd(left - 1), CMD::CMD55)
            }
        },
        SdInitState::AwaitOcr(left) => {
            if response == 0 {
                let byte_addr = frame[0] & 0x40 == 0;
                return (SdInitState::Done(byte_addr), SdAction::Finish(byte_addr));
            } else if left <= 1 {
                let e = InitError::CMDFailed(CMD::CMD58, 1);
                return (SdInitState::Failed(e), SdAction::Fail(e));
            } else {
                (SdInitState::AwaitOcr(left - 1), CMD::CMD58)
            }
        },
        SdInitState::Done(b) => {
            return (state, SdAction::Finish(b));
        },
        SdInitState::Failed(e) => {
            return (state, SdAction::Fail(e));
        },
    };
    (next, SdAction::Send(command(cmd)))
}

} // verus!
