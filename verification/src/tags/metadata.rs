//! The tags of the metadata blobs that an image can hold.

use vstd::prelude::*;

verus! {

/// Geometry of a hard disk: `GDDD`.
pub const HARD_DISK: u32 = 0x47444444;

/// Identification of a hard disk: `IDNT`.
pub const HARD_DISK_IDENT: u32 = 0x49444e54;

/// Key of a hard disk: `KEY `.
pub const HARD_DISK_KEY: u32 = 0x4b455920;

/// Card information structure of a PCMCIA card: `CIS `.
pub const PCMCIA_CIS: u32 = 0x43495320;

/// Old form of the table of a CD-ROM: `CHCD`.
pub const CDROM_OLD: u32 = 0x43484344;

/// One track of a CD-ROM: `CHTR`.
pub const CDROM_TRACK: u32 = 0x43485452;

/// One track of a CD-ROM, second form: `CHT2`.
pub const CDROM_TRACK2: u32 = 0x43485432;

/// Old form of the table of a GD-ROM: `CHGT`.
pub const GDROM_OLD: u32 = 0x43484754;

/// One track of a GD-ROM: `CHGD`.
pub const GDROM_TRACK: u32 = 0x43484744;

/// Audio and video: `AVAV`.
pub const AV: u32 = 0x41564156;

/// One frame of a laserdisc: `AVLD`.
pub const AV_LD: u32 = 0x41564c44;

} // verus!
