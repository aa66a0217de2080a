//! The character repertoires of ISO 9735 (UNOA to UNOK and UNOY): which
//! characters each admits, and conversion between their bytes and text.

use vstd::prelude::*;
use vstd::utf8::{decode_utf8, encode_scalar, encode_utf8, valid_utf8};

use crate::error::EdifactError;
use crate::parser::skip_ws;
use crate::syntax::{body_start, declared_ssa, default_ssa, has_una_prefix, ServiceStringAdvice};
use crate::text::{own, str_eq};

verus! {

/// A character repertoire named by UNB S001 DE 0001.
#[derive(Debug, Clone, Copy, PartialEq, Eq, Structural, Hash)]
#[non_exhaustive]
pub enum Charset {
    /// `UNOA`.
    UnoA,
    /// `UNOB`.
    UnoB,
    /// `UNOC`.
    UnoC,
    /// `UNOD`.
    UnoD,
    /// `UNOE`.
    UnoE,
    /// `UNOF`.
    UnoF,
    /// `UNOG`.
    UnoG,
    /// `UNOH`.
    UnoH,
    /// `UNOI`.
    UnoI,
    /// `UNOJ`.
    UnoJ,
    /// `UNOK`.
    UnoK,
    /// `UNOY`.
    UnoY,
}

/// The code points of bytes 0xA0 to 0xFF in `UNOD` (0xFFFF where undefined).
pub open spec fn unod_high() -> Seq<u16> {
    seq![0x00A0u16, 0x0104u16, 0x02D8u16, 0x0141u16, 0x00A4u16, 0x013Du16, 0x015Au16, 0x00A7u16, 0x00A8u16, 0x0160u16, 0x015Eu16, 0x0164u16, 0x0179u16, 0x00ADu16, 0x017Du16, 0x017Bu16, 0x00B0u16, 0x0105u16, 0x02DBu16, 0x0142u16, 0x00B4u16, 0x013Eu16, 0x015Bu16, 0x02C7u16, 0x00B8u16, 0x0161u16, 0x015Fu16, 0x0165u16, 0x017Au16, 0x02DDu16, 0x017Eu16, 0x017Cu16, 0x0154u16, 0x00C1u16, 0x00C2u16, 0x0102u16, 0x00C4u16, 0x0139u16, 0x0106u16, 0x00C7u16, 0x010Cu16, 0x00C9u16, 0x0118u16, 0x00CBu16, 0x011Au16, 0x00CDu16, 0x00CEu16, 0x010Eu16, 0x0110u16, 0x0143u16, 0x0147u16, 0x00D3u16, 0x00D4u16, 0x0150u16, 0x00D6u16, 0x00D7u16, 0x0158u16, 0x016Eu16, 0x00DAu16, 0x0170u16, 0x00DCu16, 0x00DDu16, 0x0162u16, 0x00DFu16, 0x0155u16, 0x00E1u16, 0x00E2u16, 0x0103u16, 0x00E4u16, 0x013Au16, 0x0107u16, 0x00E7u16, 0x010Du16, 0x00E9u16, 0x0119u16, 0x00EBu16, 0x011Bu16, 0x00EDu16, 0x00EEu16, 0x010Fu16, 0x0111u16, 0x0144u16, 0x0148u16, 0x00F3u16, 0x00F4u16, 0x0151u16, 0x00F6u16, 0x00F7u16, 0x0159u16, 0x016Fu16, 0x00FAu16, 0x0171u16, 0x00FCu16, 0x00FDu16, 0x0163u16, 0x02D9u16]
}

/// The code points of bytes 0xA0 to 0xFF in `UNOE` (0xFFFF where undefined).
pub open spec fn unoe_high() -> Seq<u16> {
    seq![0x00A0u16, 0x0401u16, 0x0402u16, 0x0403u16, 0x0404u16, 0x0405u16, 0x0406u16, 0x0407u16, 0x0408u16, 0x0409u16, 0x040Au16, 0x040Bu16, 0x040Cu16, 0x00ADu16, 0x040Eu16, 0x040Fu16, 0x0410u16, 0x0411u16, 0x0412u16, 0x0413u16, 0x0414u16, 0x0415u16, 0x0416u16, 0x0417u16, 0x0418u16, 0x0419u16, 0x041Au16, 0x041Bu16, 0x041Cu16, 0x041Du16, 0x041Eu16, 0x041Fu16, 0x0420u16, 0x0421u16, 0x0422u16, 0x0423u16, 0x0424u16, 0x0425u16, 0x0426u16, 0x0427u16, 0x0428u16, 0x0429u16, 0x042Au16, 0x042Bu16, 0x042Cu16, 0x042Du16, 0x042Eu16, 0x042Fu16, 0x0430u16, 0x0431u16, 0x0432u16, 0x0433u16, 0x0434u16, 0x0435u16, 0x0436u16, 0x0437u16, 0x0438u16, 0x0439u16, 0x043Au16, 0x043Bu16, 0x043Cu16, 0x043Du16, 0x043Eu16, 0x043Fu16, 0x0440u16, 0x0441u16, 0x0442u16, 0x0443u16, 0x0444u16, 0x0445u16, 0x0446u16, 0x0447u16, 0x0448u16, 0x0449u16, 0x044Au16, 0x044Bu16, 0x044Cu16, 0x044Du16, 0x044Eu16, 0x044Fu16, 0x2116u16, 0x0451u16, 0x0452u16, 0x0453u16, 0x0454u16, 0x0455u16, 0x0456u16, 0x0457u16, 0x0458u16, 0x0459u16, 0x045Au16, 0x045Bu16, 0x045Cu16, 0x00A7u16, 0x045Eu16, 0x045Fu16]
}

/// The code points of bytes 0xA0 to 0xFF in `UNOF` (0xFFFF where undefined).
pub open spec fn unof_high() -> Seq<u16> {
    seq![0x00A0u16, 0x2018u16, 0x2019u16, 0x00A3u16, 0x20ACu16, 0x20AFu16, 0x00A6u16, 0x00A7u16, 0x00A8u16, 0x00A9u16, 0x037Au16, 0x00ABu16, 0x00ACu16, 0x00ADu16, 0xFFFFu16, 0x2015u16, 0x00B0u16, 0x00B1u16, 0x00B2u16, 0x00B3u16, 0x0384u16, 0x0385u16, 0x0386u16, 0x00B7u16, 0x0388u16, 0x0389u16, 0x038Au16, 0x00BBu16, 0x038Cu16, 0x00BDu16, 0x038Eu16, 0x038Fu16, 0x0390u16, 0x0391u16, 0x0392u16, 0x0393u16, 0x0394u16, 0x0395u16, 0x0396u16, 0x0397u16, 0x0398u16, 0x0399u16, 0x039Au16, 0x039Bu16, 0x039Cu16, 0x039Du16, 0x039Eu16, 0x039Fu16, 0x03A0u16, 0x03A1u16, 0xFFFFu16, 0x03A3u16, 0x03A4u16, 0x03A5u16, 0x03A6u16, 0x03A7u16, 0x03A8u16, 0x03A9u16, 0x03AAu16, 0x03ABu16, 0x03ACu16, 0x03ADu16, 0x03AEu16, 0x03AFu16, 0x03B0u16, 0x03B1u16, 0x03B2u16, 0x03B3u16, 0x03B4u16, 0x03B5u16, 0x03B6u16, 0x03B7u16, 0x03B8u16, 0x03B9u16, 0x03BAu16, 0x03BBu16, 0x03BCu16, 0x03BDu16, 0x03BEu16, 0x03BFu16, 0x03C0u16, 0x03C1u16, 0x03C2u16, 0x03C3u16, 0x03C4u16, 0x03C5u16, 0x03C6u16, 0x03C7u16, 0x03C8u16, 0x03C9u16, 0x03CAu16, 0x03CBu16, 0x03CCu16, 0x03CDu16, 0x03CEu16, 0xFFFFu16]
}

/// The code points of bytes 0xA0 to 0xFF in `UNOG` (0xFFFF where undefined).
pub open spec fn unog_high() -> Seq<u16> {
    seq![0x00A0u16, 0x0126u16, 0x02D8u16, 0x00A3u16, 0x00A4u16, 0xFFFFu16, 0x0124u16, 0x00A7u16, 0x00A8u16, 0x0130u16, 0x015Eu16, 0x011Eu16, 0x0134u16, 0x00ADu16, 0xFFFFu16, 0x017Bu16, 0x00B0u16, 0x0127u16, 0x00B2u16, 0x00B3u16, 0x00B4u16, 0x00B5u16, 0x0125u16, 0x00B7u16, 0x00B8u16, 0x0131u16, 0x015Fu16, 0x011Fu16, 0x0135u16, 0x00BDu16, 0xFFFFu16, 0x017Cu16, 0x00C0u16, 0x00C1u16, 0x00C2u16, 0xFFFFu16, 0x00C4u16, 0x010Au16, 0x0108u16, 0x00C7u16, 0x00C8u16, 0x00C9u16, 0x00CAu16, 0x00CBu16, 0x00CCu16, 0x00CDu16, 0x00CEu16, 0x00CFu16, 0xFFFFu16, 0x00D1u16, 0x00D2u16, 0x00D3u16, 0x00D4u16, 0x0120u16, 0x00D6u16, 0x00D7u16, 0x011Cu16, 0x00D9u16, 0x00DAu16, 0x00DBu16, 0x00DCu16, 0x016Cu16, 0x015Cu16, 0x00DFu16, 0x00E0u16, 0x00E1u16, 0x00E2u16, 0xFFFFu16, 0x00E4u16, 0x010Bu16, 0x0109u16, 0x00E7u16, 0x00E8u16, 0x00E9u16, 0x00EAu16, 0x00EBu16, 0x00ECu16, 0x00EDu16, 0x00EEu16, 0x00EFu16, 0xFFFFu16, 0x00F1u16, 0x00F2u16, 0x00F3u16, 0x00F4u16, 0x0121u16, 0x00F6u16, 0x00F7u16, 0x011Du16, 0x00F9u16, 0x00FAu16, 0x00FBu16, 0x00FCu16, 0x016Du16, 0x015Du16, 0x02D9u16]
}

/// The code points of bytes 0xA0 to 0xFF in `UNOH` (0xFFFF where undefined).
pub open spec fn unoh_high() -> Seq<u16> {
    seq![0x00A0u16, 0x0104u16, 0x0138u16, 0x0156u16, 0x00A4u16, 0x0128u16, 0x013Bu16, 0x00A7u16, 0x00A8u16, 0x0160u16, 0x0112u16, 0x0122u16, 0x0166u16, 0x00ADu16, 0x017Du16, 0x00AFu16, 0x00B0u16, 0x0105u16, 0x02DBu16, 0x0157u16, 0x00B4u16, 0x0129u16, 0x013Cu16, 0x02C7u16, 0x00B8u16, 0x0161u16, 0x0113u16, 0x0123u16, 0x0167u16, 0x014Au16, 0x017Eu16, 0x014Bu16, 0x0100u16, 0x00C1u16, 0x00C2u16, 0x00C3u16, 0x00C4u16, 0x00C5u16, 0x00C6u16, 0x012Eu16, 0x010Cu16, 0x00C9u16, 0x0118u16, 0x00CBu16, 0x0116u16, 0x00CDu16, 0x00CEu16, 0x012Au16, 0x0110u16, 0x0145u16, 0x014Cu16, 0x0136u16, 0x00D4u16, 0x00D5u16, 0x00D6u16, 0x00D7u16, 0x00D8u16, 0x0172u16, 0x00DAu16, 0x00DBu16, 0x00DCu16, 0x0168u16, 0x016Au16, 0x00DFu16, 0x0101u16, 0x00E1u16, 0x00E2u16, 0x00E3u16, 0x00E4u16, 0x00E5u16, 0x00E6u16, 0x012Fu16, 0x010Du16, 0x00E9u16, 0x0119u16, 0x00EBu16, 0x0117u16, 0x00EDu16, 0x00EEu16, 0x012Bu16, 0x0111u16, 0x0146u16, 0x014Du16, 0x0137u16, 0x00F4u16, 0x00F5u16, 0x00F6u16, 0x00F7u16, 0x00F8u16, 0x0173u16, 0x00FAu16, 0x00FBu16, 0x00FCu16, 0x0169u16, 0x016Bu16, 0x02D9u16]
}

/// The code points of bytes 0xA0 to 0xFF in `UNOI` (0xFFFF where undefined).
pub open spec fn unoi_high() -> Seq<u16> {
    seq![0x00A0u16, 0xFFFFu16, 0xFFFFu16, 0xFFFFu16, 0x00A4u16, 0xFFFFu16, 0xFFFFu16, 0xFFFFu16, 0xFFFFu16, 0xFFFFu16, 0xFFFFu16, 0xFFFFu16, 0x060Cu16, 0x00ADu16, 0xFFFFu16, 0xFFFFu16, 0xFFFFu16, 0xFFFFu16, 0xFFFFu16, 0xFFFFu16, 0xFFFFu16, 0xFFFFu16, 0xFFFFu16, 0xFFFFu16, 0xFFFFu16, 0xFFFFu16, 0xFFFFu16, 0x061Bu16, 0xFFFFu16, 0xFFFFu16, 0xFFFFu16, 0x061Fu16, 0xFFFFu16, 0x0621u16, 0x0622u16, 0x0623u16, 0x0624u16, 0x0625u16, 0x0626u16, 0x0627u16, 0x0628u16, 0x0629u16, 0x062Au16, 0x062Bu16, 0x062Cu16, 0x062Du16, 0x062Eu16, 0x062Fu16, 0x0630u16, 0x0631u16, 0x0632u16, 0x0633u16, 0x0634u16, 0x0635u16, 0x0636u16, 0x0637u16, 0x0638u16, 0x0639u16, 0x063Au16, 0xFFFFu16, 0xFFFFu16, 0xFFFFu16, 0xFFFFu16, 0xFFFFu16, 0x0640u16, 0x0641u16, 0x0642u16, 0x0643u16, 0x0644u16, 0x0645u16, 0x0646u16, 0x0647u16, 0x0648u16, 0x0649u16, 0x064Au16, 0x064Bu16, 0x064Cu16, 0x064Du16, 0x064Eu16, 0x064Fu16, 0x0650u16, 0x0651u16, 0x0652u16, 0xFFFFu16, 0xFFFFu16, 0xFFFFu16, 0xFFFFu16, 0xFFFFu16, 0xFFFFu16, 0xFFFFu16, 0xFFFFu16, 0xFFFFu16, 0xFFFFu16, 0xFFFFu16, 0xFFFFu16, 0xFFFFu16]
}

/// The code points of bytes 0xA0 to 0xFF in `UNOJ` (0xFFFF where undefined).
pub open spec fn unoj_high() -> Seq<u16> {
    seq![0x00A0u16, 0xFFFFu16, 0x00A2u16, 0x00A3u16, 0x00A4u16, 0x00A5u16, 0x00A6u16, 0x00A7u16, 0x00A8u16, 0x00A9u16, 0x00D7u16, 0x00ABu16, 0x00ACu16, 0x00ADu16, 0x00AEu16, 0x00AFu16, 0x00B0u16, 0x00B1u16, 0x00B2u16, 0x00B3u16, 0x00B4u16, 0x00B5u16, 0x00B6u16, 0x00B7u16, 0x00B8u16, 0x00B9u16, 0x00F7u16, 0x00BBu16, 0x00BCu16, 0x00BDu16, 0x00BEu16, 0xFFFFu16, 0xFFFFu16, 0xFFFFu16, 0xFFFFu16, 0xFFFFu16, 0xFFFFu16, 0xFFFFu16, 0xFFFFu16, 0xFFFFu16, 0xFFFFu16, 0xFFFFu16, 0xFFFFu16, 0xFFFFu16, 0xFFFFu16, 0xFFFFu16, 0xFFFFu16, 0xFFFFu16, 0xFFFFu16, 0xFFFFu16, 0xFFFFu16, 0xFFFFu16, 0xFFFFu16, 0xFFFFu16, 0xFFFFu16, 0xFFFFu16, 0xFFFFu16, 0xFFFFu16, 0xFFFFu16, 0xFFFFu16, 0xFFFFu16, 0xFFFFu16, 0xFFFFu16, 0x2017u16, 0x05D0u16, 0x05D1u16, 0x05D2u16, 0x05D3u16, 0x05D4u16, 0x05D5u16, 0x05D6u16, 0x05D7u16, 0x05D8u16, 0x05D9u16, 0x05DAu16, 0x05DBu16, 0x05DCu16, 0x05DDu16, 0x05DEu16, 0x05DFu16, 0x05E0u16, 0x05E1u16, 0x05E2u16, 0x05E3u16, 0x05E4u16, 0x05E5u16, 0x05E6u16, 0x05E7u16, 0x05E8u16, 0x05E9u16, 0x05EAu16, 0xFFFFu16, 0xFFFFu16, 0x200Eu16, 0x200Fu16, 0xFFFFu16]
}

/// The code points of bytes 0xA0 to 0xFF in `UNOK` (0xFFFF where undefined).
pub open spec fn unok_high() -> Seq<u16> {
    seq![0x00A0u16, 0x00A1u16, 0x00A2u16, 0x00A3u16, 0x00A4u16, 0x00A5u16, 0x00A6u16, 0x00A7u16, 0x00A8u16, 0x00A9u16, 0x00AAu16, 0x00ABu16, 0x00ACu16, 0x00ADu16, 0x00AEu16, 0x00AFu16, 0x00B0u16, 0x00B1u16, 0x00B2u16, 0x00B3u16, 0x00B4u16, 0x00B5u16, 0x00B6u16, 0x00B7u16, 0x00B8u16, 0x00B9u16, 0x00BAu16, 0x00BBu16, 0x00BCu16, 0x00BDu16, 0x00BEu16, 0x00BFu16, 0x00C0u16, 0x00C1u16, 0x00C2u16, 0x00C3u16, 0x00C4u16, 0x00C5u16, 0x00C6u16, 0x00C7u16, 0x00C8u16, 0x00C9u16, 0x00CAu16, 0x00CBu16, 0x00CCu16, 0x00CDu16, 0x00CEu16, 0x00CFu16, 0x011Eu16, 0x00D1u16, 0x00D2u16, 0x00D3u16, 0x00D4u16, 0x00D5u16, 0x00D6u16, 0x00D7u16, 0x00D8u16, 0x00D9u16, 0x00DAu16, 0x00DBu16, 0x00DCu16, 0x0130u16, 0x015Eu16, 0x00DFu16, 0x00E0u16, 0x00E1u16, 0x00E2u16, 0x00E3u16, 0x00E4u16, 0x00E5u16, 0x00E6u16, 0x00E7u16, 0x00E8u16, 0x00E9u16, 0x00EAu16, 0x00EBu16, 0x00ECu16, 0x00EDu16, 0x00EEu16, 0x00EFu16, 0x011Fu16, 0x00F1u16, 0x00F2u16, 0x00F3u16, 0x00F4u16, 0x00F5u16, 0x00F6u16, 0x00F7u16, 0x00F8u16, 0x00F9u16, 0x00FAu16, 0x00FBu16, 0x00FCu16, 0x0131u16, 0x015Fu16, 0x00FFu16]
}

/// The table of the upper half of a table-driven repertoire.
pub open spec fn high_table(c: Charset) -> Seq<u16> {
    match c {
        Charset::UnoD => unod_high(),
        Charset::UnoE => unoe_high(),
        Charset::UnoF => unof_high(),
        Charset::UnoG => unog_high(),
        Charset::UnoH => unoh_high(),
        Charset::UnoI => unoi_high(),
        Charset::UnoJ => unoj_high(),
        Charset::UnoK => unok_high(),
        _ => Seq::empty(),
    }
}

/// Whether a repertoire maps its upper half through a table.
pub open spec fn has_table(c: Charset) -> bool {
    c != Charset::UnoA && c != Charset::UnoB && c != Charset::UnoC && c != Charset::UnoY
}

fn table_entry(c: Charset, i: usize) -> (r: u16)
    requires
        has_table(c),
        i < 96,
    ensures
        r == high_table(c)[i as int],
{
    match c {
        Charset::UnoD => {
            let t: [u16; 96] = [0x00A0u16, 0x0104u16, 0x02D8u16, 0x0141u16, 0x00A4u16, 0x013Du16, 0x015Au16, 0x00A7u16, 0x00A8u16, 0x0160u16, 0x015Eu16, 0x0164u16, 0x0179u16, 0x00ADu16, 0x017Du16, 0x017Bu16, 0x00B0u16, 0x0105u16, 0x02DBu16, 0x0142u16, 0x00B4u16, 0x013Eu16, 0x015Bu16, 0x02C7u16, 0x00B8u16, 0x0161u16, 0x015Fu16, 0x0165u16, 0x017Au16, 0x02DDu16, 0x017Eu16, 0x017Cu16, 0x0154u16, 0x00C1u16, 0x00C2u16, 0x0102u16, 0x00C4u16, 0x0139u16, 0x0106u16, 0x00C7u16, 0x010Cu16, 0x00C9u16, 0x0118u16, 0x00CBu16, 0x011Au16, 0x00CDu16, 0x00CEu16, 0x010Eu16, 0x0110u16, 0x0143u16, 0x0147u16, 0x00D3u16, 0x00D4u16, 0x0150u16, 0x00D6u16, 0x00D7u16, 0x0158u16, 0x016Eu16, 0x00DAu16, 0x0170u16, 0x00DCu16, 0x00DDu16, 0x0162u16, 0x00DFu16, 0x0155u16, 0x00E1u16, 0x00E2u16, 0x0103u16, 0x00E4u16, 0x013Au16, 0x0107u16, 0x00E7u16, 0x010Du16, 0x00E9u16, 0x0119u16, 0x00EBu16, 0x011Bu16, 0x00EDu16, 0x00EEu16, 0x010Fu16, 0x0111u16, 0x0144u16, 0x0148u16, 0x00F3u16, 0x00F4u16, 0x0151u16, 0x00F6u16, 0x00F7u16, 0x0159u16, 0x016Fu16, 0x00FAu16, 0x0171u16, 0x00FCu16, 0x00FDu16, 0x0163u16, 0x02D9u16];
            proof { assert(t@ =~= unod_high()); }
            t[i]
        },
        Charset::UnoE => {
            let t: [u16; 96] = [0x00A0u16, 0x0401u16, 0x0402u16, 0x0403u16, 0x0404u16, 0x0405u16, 0x0406u16, 0x0407u16, 0x0408u16, 0x0409u16, 0x040Au16, 0x040Bu16, 0x040Cu16, 0x00ADu16, 0x040Eu16, 0x040Fu16, 0x0410u16, 0x0411u16, 0x0412u16, 0x0413u16, 0x0414u16, 0x0415u16, 0x0416u16, 0x0417u16, 0x0418u16, 0x0419u16, 0x041Au16, 0x041Bu16, 0x041Cu16, 0x041Du16, 0x041Eu16, 0x041Fu16, 0x0420u16, 0x0421u16, 0x0422u16, 0x0423u16, 0x0424u16, 0x0425u16, 0x0426u16, 0x0427u16, 0x0428u16, 0x0429u16, 0x042Au16, 0x042Bu16, 0x042Cu16, 0x042Du16, 0x042Eu16, 0x042Fu16, 0x0430u16, 0x0431u16, 0x0432u16, 0x0433u16, 0x0434u16, 0x0435u16, 0x0436u16, 0x0437u16, 0x0438u16, 0x0439u16, 0x043Au16, 0x043Bu16, 0x043Cu16, 0x043Du16, 0x043Eu16, 0x043Fu16, 0x0440u16, 0x0441u16, 0x0442u16, 0x0443u16, 0x0444u16, 0x0445u16, 0x0446u16, 0x0447u16, 0x0448u16, 0x0449u16, 0x044Au16, 0x044Bu16, 0x044Cu16, 0x044Du16, 0x044Eu16, 0x044Fu16, 0x2116u16, 0x0451u16, 0x0452u16, 0x0453u16, 0x0454u16, 0x0455u16, 0x0456u16, 0x0457u16, 0x0458u16, 0x0459u16, 0x045Au16, 0x045Bu16, 0x045Cu16, 0x00A7u16, 0x045Eu16, 0x045Fu16];
            proof { assert(t@ =~= unoe_high()); }
            t[i]
        },
        Charset::UnoF => {
            let t: [u16; 96] = [0x00A0u16, 0x2018u16, 0x2019u16, 0x00A3u16, 0x20ACu16, 0x20AFu16, 0x00A6u16, 0x00A7u16, 0x00A8u16, 0x00A9u16, 0x037Au16, 0x00ABu16, 0x00ACu16, 0x00ADu16, 0xFFFFu16, 0x2015u16, 0x00B0u16, 0x00B1u16, 0x00B2u16, 0x00B3u16, 0x0384u16, 0x0385u16, 0x0386u16, 0x00B7u16, 0x0388u16, 0x0389u16, 0x038Au16, 0x00BBu16, 0x038Cu16, 0x00BDu16, 0x038Eu16, 0x038Fu16, 0x0390u16, 0x0391u16, 0x0392u16, 0x0393u16, 0x0394u16, 0x0395u16, 0x0396u16, 0x0397u16, 0x0398u16, 0x0399u16, 0x039Au16, 0x039Bu16, 0x039Cu16, 0x039Du16, 0x039Eu16, 0x039Fu16, 0x03A0u16, 0x03A1u16, 0xFFFFu16, 0x03A3u16, 0x03A4u16, 0x03A5u16, 0x03A6u16, 0x03A7u16, 0x03A8u16, 0x03A9u16, 0x03AAu16, 0x03ABu16, 0x03ACu16, 0x03ADu16, 0x03AEu16, 0x03AFu16, 0x03B0u16, 0x03B1u16, 0x03B2u16, 0x03B3u16, 0x03B4u16, 0x03B5u16, 0x03B6u16, 0x03B7u16, 0x03B8u16, 0x03B9u16, 0x03BAu16, 0x03BBu16, 0x03BCu16, 0x03BDu16, 0x03BEu16, 0x03BFu16, 0x03C0u16, 0x03C1u16, 0x03C2u16, 0x03C3u16, 0x03C4u16, 0x03C5u16, 0x03C6u16, 0x03C7u16, 0x03C8u16, 0x03C9u16, 0x03CAu16, 0x03CBu16, 0x03CCu16, 0x03CDu16, 0x03CEu16, 0xFFFFu16];
            proof { assert(t@ =~= unof_high()); }
            t[i]
        },
        Charset::UnoG => {
            let t: [u16; 96] = [0x00A0u16, 0x0126u16, 0x02D8u16, 0x00A3u16, 0x00A4u16, 0xFFFFu16, 0x0124u16, 0x00A7u16, 0x00A8u16, 0x0130u16, 0x015Eu16, 0x011Eu16, 0x0134u16, 0x00ADu16, 0xFFFFu16, 0x017Bu16, 0x00B0u16, 0x0127u16, 0x00B2u16, 0x00B3u16, 0x00B4u16, 0x00B5u16, 0x0125u16, 0x00B7u16, 0x00B8u16, 0x0131u16, 0x015Fu16, 0x011Fu16, 0x0135u16, 0x00BDu16, 0xFFFFu16, 0x017Cu16, 0x00C0u16, 0x00C1u16, 0x00C2u16, 0xFFFFu16, 0x00C4u16, 0x010Au16, 0x0108u16, 0x00C7u16, 0x00C8u16, 0x00C9u16, 0x00CAu16, 0x00CBu16, 0x00CCu16, 0x00CDu16, 0x00CEu16, 0x00CFu16, 0xFFFFu16, 0x00D1u16, 0x00D2u16, 0x00D3u16, 0x00D4u16, 0x0120u16, 0x00D6u16, 0x00D7u16, 0x011Cu16, 0x00D9u16, 0x00DAu16, 0x00DBu16, 0x00DCu16, 0x016Cu16, 0x015Cu16, 0x00DFu16, 0x00E0u16, 0x00E1u16, 0x00E2u16, 0xFFFFu16, 0x00E4u16, 0x010Bu16, 0x0109u16, 0x00E7u16, 0x00E8u16, 0x00E9u16, 0x00EAu16, 0x00EBu16, 0x00ECu16, 0x00EDu16, 0x00EEu16, 0x00EFu16, 0xFFFFu16, 0x00F1u16, 0x00F2u16, 0x00F3u16, 0x00F4u16, 0x0121u16, 0x00F6u16, 0x00F7u16, 0x011Du16, 0x00F9u16, 0x00FAu16, 0x00FBu16, 0x00FCu16, 0x016Du16, 0x015Du16, 0x02D9u16];
            proof { assert(t@ =~= unog_high()); }
            t[i]
        },
        Charset::UnoH => {
            let t: [u16; 96] = [0x00A0u16, 0x0104u16, 0x0138u16, 0x0156u16, 0x00A4u16, 0x0128u16, 0x013Bu16, 0x00A7u16, 0x00A8u16, 0x0160u16, 0x0112u16, 0x0122u16, 0x0166u16, 0x00ADu16, 0x017Du16, 0x00AFu16, 0x00B0u16, 0x0105u16, 0x02DBu16, 0x0157u16, 0x00B4u16, 0x0129u16, 0x013Cu16, 0x02C7u16, 0x00B8u16, 0x0161u16, 0x0113u16, 0x0123u16, 0x0167u16, 0x014Au16, 0x017Eu16, 0x014Bu16, 0x0100u16, 0x00C1u16, 0x00C2u16, 0x00C3u16, 0x00C4u16, 0x00C5u16, 0x00C6u16, 0x012Eu16, 0x010Cu16, 0x00C9u16, 0x0118u16, 0x00CBu16, 0x0116u16, 0x00CDu16, 0x00CEu16, 0x012Au16, 0x0110u16, 0x0145u16, 0x014Cu16, 0x0136u16, 0x00D4u16, 0x00D5u16, 0x00D6u16, 0x00D7u16, 0x00D8u16, 0x0172u16, 0x00DAu16, 0x00DBu16, 0x00DCu16, 0x0168u16, 0x016Au16, 0x00DFu16, 0x0101u16, 0x00E1u16, 0x00E2u16, 0x00E3u16, 0x00E4u16, 0x00E5u16, 0x00E6u16, 0x012Fu16, 0x010Du16, 0x00E9u16, 0x0119u16, 0x00EBu16, 0x0117u16, 0x00EDu16, 0x00EEu16, 0x012Bu16, 0x0111u16, 0x0146u16, 0x014Du16, 0x0137u16, 0x00F4u16, 0x00F5u16, 0x00F6u16, 0x00F7u16, 0x00F8u16, 0x0173u16, 0x00FAu16, 0x00FBu16, 0x00FCu16, 0x0169u16, 0x016Bu16, 0x02D9u16];
            proof { assert(t@ =~= unoh_high()); }
            t[i]
        },
        Charset::UnoI => {
            let t: [u16; 96] = [0x00A0u16, 0xFFFFu16, 0xFFFFu16, 0xFFFFu16, 0x00A4u16, 0xFFFFu16, 0xFFFFu16, 0xFFFFu16, 0xFFFFu16, 0xFFFFu16, 0xFFFFu16, 0xFFFFu16, 0x060Cu16, 0x00ADu16, 0xFFFFu16, 0xFFFFu16, 0xFFFFu16, 0xFFFFu16, 0xFFFFu16, 0xFFFFu16, 0xFFFFu16, 0xFFFFu16, 0xFFFFu16, 0xFFFFu16, 0xFFFFu16, 0xFFFFu16, 0xFFFFu16, 0x061Bu16, 0xFFFFu16, 0xFFFFu16, 0xFFFFu16, 0x061Fu16, 0xFFFFu16, 0x0621u16, 0x0622u16, 0x0623u16, 0x0624u16, 0x0625u16, 0x0626u16, 0x0627u16, 0x0628u16, 0x0629u16, 0x062Au16, 0x062Bu16, 0x062Cu16, 0x062Du16, 0x062Eu16, 0x062Fu16, 0x0630u16, 0x0631u16, 0x0632u16, 0x0633u16, 0x0634u16, 0x0635u16, 0x0636u16, 0x0637u16, 0x0638u16, 0x0639u16, 0x063Au16, 0xFFFFu16, 0xFFFFu16, 0xFFFFu16, 0xFFFFu16, 0xFFFFu16, 0x0640u16, 0x0641u16, 0x0642u16, 0x0643u16, 0x0644u16, 0x0645u16, 0x0646u16, 0x0647u16, 0x0648u16, 0x0649u16, 0x064Au16, 0x064Bu16, 0x064Cu16, 0x064Du16, 0x064Eu16, 0x064Fu16, 0x0650u16, 0x0651u16, 0x0652u16, 0xFFFFu16, 0xFFFFu16, 0xFFFFu16, 0xFFFFu16, 0xFFFFu16, 0xFFFFu16, 0xFFFFu16, 0xFFFFu16, 0xFFFFu16, 0xFFFFu16, 0xFFFFu16, 0xFFFFu16, 0xFFFFu16];
            proof { assert(t@ =~= unoi_high()); }
            t[i]
        },
        Charset::UnoJ => {
            let t: [u16; 96] = [0x00A0u16, 0xFFFFu16, 0x00A2u16, 0x00A3u16, 0x00A4u16, 0x00A5u16, 0x00A6u16, 0x00A7u16, 0x00A8u16, 0x00A9u16, 0x00D7u16, 0x00ABu16, 0x00ACu16, 0x00ADu16, 0x00AEu16, 0x00AFu16, 0x00B0u16, 0x00B1u16, 0x00B2u16, 0x00B3u16, 0x00B4u16, 0x00B5u16, 0x00B6u16, 0x00B7u16, 0x00B8u16, 0x00B9u16, 0x00F7u16, 0x00BBu16, 0x00BCu16, 0x00BDu16, 0x00BEu16, 0xFFFFu16, 0xFFFFu16, 0xFFFFu16, 0xFFFFu16, 0xFFFFu16, 0xFFFFu16, 0xFFFFu16, 0xFFFFu16, 0xFFFFu16, 0xFFFFu16, 0xFFFFu16, 0xFFFFu16, 0xFFFFu16, 0xFFFFu16, 0xFFFFu16, 0xFFFFu16, 0xFFFFu16, 0xFFFFu16, 0xFFFFu16, 0xFFFFu16, 0xFFFFu16, 0xFFFFu16, 0xFFFFu16, 0xFFFFu16, 0xFFFFu16, 0xFFFFu16, 0xFFFFu16, 0xFFFFu16, 0xFFFFu16, 0xFFFFu16, 0xFFFFu16, 0xFFFFu16, 0x2017u16, 0x05D0u16, 0x05D1u16, 0x05D2u16, 0x05D3u16, 0x05D4u16, 0x05D5u16, 0x05D6u16, 0x05D7u16, 0x05D8u16, 0x05D9u16, 0x05DAu16, 0x05DBu16, 0x05DCu16, 0x05DDu16, 0x05DEu16, 0x05DFu16, 0x05E0u16, 0x05E1u16, 0x05E2u16, 0x05E3u16, 0x05E4u16, 0x05E5u16, 0x05E6u16, 0x05E7u16, 0x05E8u16, 0x05E9u16, 0x05EAu16, 0xFFFFu16, 0xFFFFu16, 0x200Eu16, 0x200Fu16, 0xFFFFu16];
            proof { assert(t@ =~= unoj_high()); }
            t[i]
        },
        Charset::UnoK => {
            let t: [u16; 96] = [0x00A0u16, 0x00A1u16, 0x00A2u16, 0x00A3u16, 0x00A4u16, 0x00A5u16, 0x00A6u16, 0x00A7u16, 0x00A8u16, 0x00A9u16, 0x00AAu16, 0x00ABu16, 0x00ACu16, 0x00ADu16, 0x00AEu16, 0x00AFu16, 0x00B0u16, 0x00B1u16, 0x00B2u16, 0x00B3u16, 0x00B4u16, 0x00B5u16, 0x00B6u16, 0x00B7u16, 0x00B8u16, 0x00B9u16, 0x00BAu16, 0x00BBu16, 0x00BCu16, 0x00BDu16, 0x00BEu16, 0x00BFu16, 0x00C0u16, 0x00C1u16, 0x00C2u16, 0x00C3u16, 0x00C4u16, 0x00C5u16, 0x00C6u16, 0x00C7u16, 0x00C8u16, 0x00C9u16, 0x00CAu16, 0x00CBu16, 0x00CCu16, 0x00CDu16, 0x00CEu16, 0x00CFu16, 0x011Eu16, 0x00D1u16, 0x00D2u16, 0x00D3u16, 0x00D4u16, 0x00D5u16, 0x00D6u16, 0x00D7u16, 0x00D8u16, 0x00D9u16, 0x00DAu16, 0x00DBu16, 0x00DCu16, 0x0130u16, 0x015Eu16, 0x00DFu16, 0x00E0u16, 0x00E1u16, 0x00E2u16, 0x00E3u16, 0x00E4u16, 0x00E5u16, 0x00E6u16, 0x00E7u16, 0x00E8u16, 0x00E9u16, 0x00EAu16, 0x00EBu16, 0x00ECu16, 0x00EDu16, 0x00EEu16, 0x00EFu16, 0x011Fu16, 0x00F1u16, 0x00F2u16, 0x00F3u16, 0x00F4u16, 0x00F5u16, 0x00F6u16, 0x00F7u16, 0x00F8u16, 0x00F9u16, 0x00FAu16, 0x00FBu16, 0x00FCu16, 0x0131u16, 0x015Fu16, 0x00FFu16];
            proof { assert(t@ =~= unok_high()); }
            t[i]
        },
        _ => 0,
    }
}
/// The syntax identifier of a repertoire.
pub open spec fn charset_id(c: Charset) -> Seq<char> {
    match c {
        Charset::UnoA => "UNOA"@,
        Charset::UnoB => "UNOB"@,
        Charset::UnoC => "UNOC"@,
        Charset::UnoD => "UNOD"@,
        Charset::UnoE => "UNOE"@,
        Charset::UnoF => "UNOF"@,
        Charset::UnoG => "UNOG"@,
        Charset::UnoH => "UNOH"@,
        Charset::UnoI => "UNOI"@,
        Charset::UnoJ => "UNOJ"@,
        Charset::UnoK => "UNOK"@,
        Charset::UnoY => "UNOY"@,
    }
}

/// The repertoire a syntax identifier names, if it names a supported one.
pub open spec fn charset_named(id: Seq<char>) -> Option<Charset> {
    if id == "UNOA"@ {
        Some(Charset::UnoA)
    }
    else if id == "UNOB"@ {
        Some(Charset::UnoB)
    }
    else if id == "UNOC"@ {
        Some(Charset::UnoC)
    }
    else if id == "UNOD"@ {
        Some(Charset::UnoD)
    }
    else if id == "UNOE"@ {
        Some(Charset::UnoE)
    }
    else if id == "UNOF"@ {
        Some(Charset::UnoF)
    }
    else if id == "UNOG"@ {
        Some(Charset::UnoG)
    }
    else if id == "UNOH"@ {
        Some(Charset::UnoH)
    }
    else if id == "UNOI"@ {
        Some(Charset::UnoI)
    }
    else if id == "UNOJ"@ {
        Some(Charset::UnoJ)
    }
    else if id == "UNOK"@ {
        Some(Charset::UnoK)
    }
    else if id == "UNOY"@ {
        Some(Charset::UnoY)
    }
    else {
        None
    }
}

/// A Unicode scalar value: a code point that is not a surrogate.
pub open spec fn is_scalar_code(code: u32) -> bool {
    code <= 0xD7FF || (0xE000 <= code && code <= 0x10FFFF)
}

/// `char::from_u32`: the character with this code point, if it is a scalar value.
#[verifier::external_body]
fn char_from_code(code: u32) -> (r: Option<char>)
    ensures
        r is Some <==> is_scalar_code(code),
        r matches Some(c) ==> c as u32 == code,
{
    char::from_u32(code)
}

/// The code point a byte of the upper half (0x80 and above) stands for in `c`.
pub open spec fn decode_high(c: Charset, b: u8) -> Option<u32> {
    if c == Charset::UnoA || c == Charset::UnoB || c == Charset::UnoY {
        None
    } else if c == Charset::UnoC || b < 0xA0 {
        Some(b as u32)
    } else {
        let code = high_table(c)[b - 0xA0];
        if code == 0xFFFF || !is_scalar_code(code as u32) { None } else { Some(code as u32) }
    }
}

/// The first index from `i` whose table entry is `code`, or -1.
pub open spec fn table_index_from(c: Charset, code: u32, i: int) -> int
    decreases 96 - i,
{
    if i >= 96 {
        -1
    } else if high_table(c)[i] != 0xFFFF && high_table(c)[i] as u32 == code {
        i
    } else {
        table_index_from(c, code, i + 1)
    }
}

/// The byte that stands for code point `code` in the single-byte repertoire `c`.
pub open spec fn encode_code(c: Charset, code: u32) -> Option<u8> {
    if code < 0x80 {
        Some(code as u8)
    } else if c == Charset::UnoA || c == Charset::UnoB || c == Charset::UnoY {
        None
    } else if c == Charset::UnoC {
        if code <= 0xFF { Some(code as u8) } else { None }
    } else if code < 0xA0 {
        Some(code as u8)
    } else {
        let i = table_index_from(c, code, 0);
        if i < 0 { None } else { Some((0xA0 + i) as u8) }
    }
}

/// The level A punctuation: `. , - ( ) / = ' + : ? ! " % & * ; < >`.
pub open spec fn level_a_punctuation(code: u32) -> bool {
    code == 46 || code == 44 || code == 45 || code == 40 || code == 41 || code == 47 || code == 61
    || code == 39 || code == 43 || code == 58 || code == 63 || code == 33 || code == 34 || code == 37
    || code == 38 || code == 42 || code == 59 || code == 60 || code == 62
}

/// Whether repertoire `c` admits character `ch`.
pub open spec fn permits_spec(c: Charset, ch: char) -> bool {
    let code = ch as u32;
    if c == Charset::UnoY {
        true
    } else if c == Charset::UnoA {
        (65 <= code <= 90) || (48 <= code <= 57) || code == 32 || level_a_punctuation(code)
    } else if c == Charset::UnoB {
        (97 <= code <= 122) || (65 <= code <= 90) || (48 <= code <= 57) || code == 32 || level_a_punctuation(code)
    } else {
        encode_code(c, code) is Some
    }
}

/// The number of bytes UTF-8 takes for a character.
pub open spec fn utf8_width(ch: char) -> int {
    let code = ch as u32;
    if code < 0x80 { 1 } else if code < 0x800 { 2 } else if code < 0x10000 { 3 } else { 4 }
}

/// The number of bytes UTF-8 takes for a text.
pub open spec fn utf8_len(s: Seq<char>) -> int {
    encode_utf8(s).len() as int
}

/// UTF-8 encodes a concatenation piece by piece.
pub proof fn lemma_encode_utf8_concat(a: Seq<char>, b: Seq<char>)
    ensures
        encode_utf8(a + b) == encode_utf8(a) + encode_utf8(b),
    decreases a.len(),
{
    if a.len() > 0 {
        lemma_encode_utf8_concat(a.drop_first(), b);
        assert((a + b).drop_first() =~= a.drop_first() + b);
        assert((a + b)[0] == a[0]);
    } else {
        assert(a + b =~= b);
    }
}

proof fn lemma_utf8_len_push(s: Seq<char>, c: char)
    ensures
        utf8_len(s.push(c)) == utf8_len(s) + utf8_width(c),
        utf8_width(c) >= 1,
{
    lemma_encode_utf8_concat(s, seq![c]);
    assert(s.push(c) =~= s + seq![c]);
    assert(seq![c].drop_first() =~= Seq::<char>::empty());
    assert(encode_utf8(seq![c]) == encode_scalar(c as u32) + encode_utf8(Seq::<char>::empty()));
}

proof fn lemma_utf8_len_prefix(s: Seq<char>, i: int)
    requires
        0 <= i <= s.len(),
    ensures
        utf8_len(s.take(i)) <= utf8_len(s),
{
    lemma_encode_utf8_concat(s.take(i), s.skip(i));
    assert(s.take(i) + s.skip(i) =~= s);
}

/// The index of the first character from `i` that `c` does not admit, or -1.
pub open spec fn first_rejected(c: Charset, s: Seq<char>, i: int) -> int
    decreases s.len() - i,
{
    if i >= s.len() {
        -1
    } else if !permits_spec(c, s[i]) {
        i
    } else {
        first_rejected(c, s, i + 1)
    }
}

/// The index of the first character from `i` with no byte in `c`, or -1.
pub open spec fn first_unencodable(c: Charset, s: Seq<char>, i: int) -> int
    decreases s.len() - i,
{
    if i >= s.len() {
        -1
    } else if encode_code(c, s[i] as u32) is None {
        i
    } else {
        first_unencodable(c, s, i + 1)
    }
}

/// The bytes of text `s` in the single-byte repertoire `c`.
pub open spec fn encode_chars(c: Charset, s: Seq<char>) -> Seq<u8> {
    s.map_values(|ch: char| encode_code(c, ch as u32).unwrap())
}

/// Whether every byte is ASCII.
pub open spec fn all_ascii(b: Seq<u8>) -> bool {
    forall|i: int| 0 <= i < b.len() ==> b[i] < 0x80
}

/// The longest prefix of `b`, up to `j` bytes, that is valid UTF-8.
pub open spec fn valid_prefix_len(b: Seq<u8>, j: int) -> int
    decreases j,
{
    if j <= 0 { 0 } else if valid_utf8(b.take(j)) { j } else { valid_prefix_len(b, j - 1) }
}

/// The index of the first byte from `i` of the upper half that `c` does not define, or -1.
pub open spec fn first_undefined(c: Charset, b: Seq<u8>, i: int) -> int
    decreases b.len() - i,
{
    if i >= b.len() {
        -1
    } else if b[i] >= 0x80 && decode_high(c, b[i]) is None {
        i
    } else {
        first_undefined(c, b, i + 1)
    }
}

/// The code point byte `x` stands for in the single-byte repertoire `c`.
pub open spec fn byte_code(c: Charset, x: u8) -> u32 {
    if x < 0x80 { x as u32 } else { decode_high(c, x).unwrap() }
}

/// `s` is the text of bytes `b` in the single-byte repertoire `c`: one
/// character per byte, each the code point the byte stands for.
pub open spec fn decodes_bytes(c: Charset, b: Seq<u8>, s: Seq<char>) -> bool {
    s.len() == b.len() && forall|i: int| 0 <= i < b.len() ==> (#[trigger] s[i]) as u32 == byte_code(c, b[i])
}

/// Whether the repertoire's bytes are UTF-8 already.
pub open spec fn utf8_repertoire(c: Charset) -> bool {
    c == Charset::UnoY || c == Charset::UnoA || c == Charset::UnoB
}

/// `std::str::from_utf8(..).valid_up_to()`: the length of the longest valid
/// UTF-8 prefix of `b` (all of it when it is valid).
#[verifier::external_body]
fn utf8_valid_up_to(b: &[u8]) -> (r: usize)
    ensures
        r == valid_prefix_len(b@, b@.len() as int),
{
    match std::str::from_utf8(b) {
        Ok(_) => b.len(),
        Err(e) => e.valid_up_to(),
    }
}

/// `String::from_utf8`: the string the bytes encode, when they are valid UTF-8.
#[verifier::external_body]
fn bytes_to_string(v: Vec<u8>) -> (r: Option<String>)
    ensures
        r is Some <==> valid_utf8(v@),
        r matches Some(s) ==> s@ == decode_utf8(v@),
{
    String::from_utf8(v).ok()
}

proof fn lemma_valid_prefix(b: Seq<u8>, j: int)
    requires
        0 <= j <= b.len(),
    ensures
        0 <= valid_prefix_len(b, j) <= j,
        valid_utf8(b.take(j)) ==> valid_prefix_len(b, j) == j,
    decreases j,
{
    if j > 0 && !valid_utf8(b.take(j)) {
        lemma_valid_prefix(b, j - 1);
    }
}

proof fn lemma_take_full(b: Seq<u8>)
    ensures
        b.take(b.len() as int) == b,
{
    assert(b.take(b.len() as int) =~= b);
}

fn char_width(ch: char) -> (r: usize)
    ensures
        r == utf8_width(ch),
{
    let code = ch as u32;
    if code < 0x80 { 1 } else if code < 0x800 { 2 } else if code < 0x10000 { 3 } else { 4 }
}

impl Charset {
    /// The repertoire a syntax identifier names.  `UNOX` and `KECA` are
    /// recognised but not supported; anything else is unrecognised.
    pub fn from_syntax_identifier(identifier: &str) -> (r: Result<Charset, EdifactError>)
        ensures
            match charset_named(identifier@) {
                Some(c) => r == Ok::<Charset, EdifactError>(c),
                None => if identifier@ == "UNOX"@ || identifier@ == "KECA"@ {
                    r matches Err(EdifactError::UnsupportedCharset { syntax_identifier }) && syntax_identifier@ == identifier@
                } else {
                    r matches Err(EdifactError::UnrecognisedSyntaxIdentifier(s)) && s@ == identifier@
                },
            },
    {
        if str_eq(identifier, "UNOA") {
            Ok(Charset::UnoA)
        }
        else if str_eq(identifier, "UNOB") {
            Ok(Charset::UnoB)
        }
        else if str_eq(identifier, "UNOC") {
            Ok(Charset::UnoC)
        }
        else if str_eq(identifier, "UNOD") {
            Ok(Charset::UnoD)
        }
        else if str_eq(identifier, "UNOE") {
            Ok(Charset::UnoE)
        }
        else if str_eq(identifier, "UNOF") {
            Ok(Charset::UnoF)
        }
        else if str_eq(identifier, "UNOG") {
            Ok(Charset::UnoG)
        }
        else if str_eq(identifier, "UNOH") {
            Ok(Charset::UnoH)
        }
        else if str_eq(identifier, "UNOI") {
            Ok(Charset::UnoI)
        }
        else if str_eq(identifier, "UNOJ") {
            Ok(Charset::UnoJ)
        }
        else if str_eq(identifier, "UNOK") {
            Ok(Charset::UnoK)
        }
        else if str_eq(identifier, "UNOY") {
            Ok(Charset::UnoY)
        }
        else if str_eq(identifier, "UNOX") || str_eq(identifier, "KECA") {
            Err(EdifactError::UnsupportedCharset { syntax_identifier: own(identifier) })
        } else {
            Err(EdifactError::UnrecognisedSyntaxIdentifier(own(identifier)))
        }
    }

    /// The syntax identifier of this repertoire.
    pub fn syntax_identifier(self) -> (r: &'static str)
        ensures
            r@ == charset_id(self),
    {
        match self {
            Charset::UnoA => "UNOA",
            Charset::UnoB => "UNOB",
            Charset::UnoC => "UNOC",
            Charset::UnoD => "UNOD",
            Charset::UnoE => "UNOE",
            Charset::UnoF => "UNOF",
            Charset::UnoG => "UNOG",
            Charset::UnoH => "UNOH",
            Charset::UnoI => "UNOI",
            Charset::UnoJ => "UNOJ",
            Charset::UnoK => "UNOK",
            Charset::UnoY => "UNOY",
        }
    }

    /// Whether the repertoire's bytes are UTF-8 already (`UNOY`, and the ASCII
    /// subsets `UNOA` and `UNOB`).
    pub fn is_utf8(self) -> (r: bool)
        ensures
            r == utf8_repertoire(self),
    {
        match self {
            Charset::UnoY | Charset::UnoA | Charset::UnoB => true,
            _ => false,
        }
    }

    /// The character a byte of the upper half stands for, if the repertoire defines it.
    pub fn decode_byte(self, byte: u8) -> (r: Option<char>)
        ensures
            match (r, decode_high(self, byte)) {
                (Some(ch), Some(code)) => ch as u32 == code,
                (None, None) => true,
                _ => false,
            },
    {
        match self {
            Charset::UnoA | Charset::UnoB | Charset::UnoY => None,
            Charset::UnoC => char_from_code(byte as u32),
            _ => {
                if byte < 0xA0 {
                    return char_from_code(byte as u32);
                }
                let code = table_entry(self, (byte - 0xA0) as usize);
                if code == 0xFFFF {
                    None
                } else {
                    char_from_code(code as u32)
                }
            },
        }
    }

    /// The byte that stands for a character, if the repertoire has one.
    pub fn encode_char(self, ch: char) -> (r: Option<u8>)
        ensures
            r == encode_code(self, ch as u32),
    {
        let code = ch as u32;
        if code < 0x80 {
            return Some(code as u8);
        }
        match self {
            Charset::UnoA | Charset::UnoB | Charset::UnoY => None,
            Charset::UnoC => if code <= 0xFF { Some(code as u8) } else { None },
            _ => {
                if code < 0xA0 {
                    return Some(code as u8);
                }
                let mut i: usize = 0;
                while i < 96
                    invariant
                        has_table(self),
                        i <= 96,
                        code == ch as u32,
                        code >= 0xA0,
                        table_index_from(self, code, 0) == table_index_from(self, code, i as int),
                    decreases 96 - i,
                {
                    let entry = table_entry(self, i);
                    if entry != 0xFFFF && entry as u32 == code {
                        return Some((0xA0 + i) as u8);
                    }
                    i = i + 1;
                }
                None
            },
        }
    }

    /// Whether the repertoire admits a character: every character for
    /// `UNOY`, upper-case letters, digits, space and the level A punctuation
    /// for `UNOA`, lower-case letters too for `UNOB`, and for the single-byte
    /// repertoires exactly the characters they have a byte for.
    pub fn permits(self, ch: char) -> (r: bool)
        ensures
            r == permits_spec(self, ch),
    {
        let code = ch as u32;
        let punct = code == 46 || code == 44 || code == 45 || code == 40 || code == 41 || code == 47 || code == 61
            || code == 39 || code == 43 || code == 58 || code == 63 || code == 33 || code == 34 || code == 37
            || code == 38 || code == 42 || code == 59 || code == 60 || code == 62;
        match self {
            Charset::UnoY => true,
            Charset::UnoA => (65 <= code && code <= 90) || (48 <= code && code <= 57) || code == 32 || punct,
            Charset::UnoB => (97 <= code && code <= 122) || (65 <= code && code <= 90) || (48 <= code && code <= 57)
                || code == 32 || punct,
            _ => self.encode_char(ch).is_some(),
        }
    }

    /// The byte offset and the character of the first character of `text`
    /// the repertoire does not admit; `None` when it admits them all.
    pub fn first_violation(self, text: &str) -> (r: Option<(usize, char)>)
        ensures
            match r {
                Some((off, ch)) => {
                    let i = first_rejected(self, text@, 0);
                    i >= 0 && ch == text@[i] && off == utf8_len(text@.take(i))
                },
                None => self == Charset::UnoY || first_rejected(self, text@, 0) < 0,
            },
    {
        if self == Charset::UnoY {
            return None;
        }
        let nbytes = text.as_bytes().len();
        let chars = crate::text::to_chars(text);
        let mut off: usize = 0;
        let mut i: usize = 0;
        while i < chars.len()
            invariant
                chars@ == text@,
                i <= chars@.len(),
                off == utf8_len(text@.take(i as int)),
                first_rejected(self, text@, 0) == first_rejected(self, text@, i as int),
                utf8_len(text@) == nbytes as int,
                self != Charset::UnoY,
            decreases chars@.len() - i,
        {
            let ch = chars[i];
            if !self.permits(ch) {
                return Some((off, ch));
            }
            proof {
                assert(text@.take(i + 1) =~= text@.take(i as int).push(ch));
                lemma_utf8_len_push(text@.take(i as int), ch);
                lemma_utf8_len_prefix(text@, i + 1);
            }
            off = off + char_width(ch);
            i = i + 1;
        }
        None
    }

    /// Decodes bytes of this repertoire to text.  ASCII input and the UTF-8
    /// repertoires must be valid UTF-8 (else `InvalidText` at the end of the
    /// longest valid prefix); otherwise each byte of the upper half must be
    /// defined (else `InvalidText` at that byte).
    pub fn decode(self, bytes: &[u8]) -> (r: Result<String, EdifactError>)
        ensures
            all_ascii(bytes@) || utf8_repertoire(self) ==> (if valid_utf8(bytes@) {
                r matches Ok(s) && s@ == decode_utf8(bytes@)
            } else {
                r == Err::<String, EdifactError>(EdifactError::InvalidText { offset: valid_prefix_len(bytes@, bytes@.len() as int) as usize })
            }),
            !(all_ascii(bytes@) || utf8_repertoire(self)) ==> (if first_undefined(self, bytes@, 0) < 0 {
                r matches Ok(s) && decodes_bytes(self, bytes@, s@)
            } else {
                r == Err::<String, EdifactError>(EdifactError::InvalidText { offset: first_undefined(self, bytes@, 0) as usize })
            }),
    {
        let ascii = is_ascii_bytes(bytes);
        if ascii || self.is_utf8() {
            let k = utf8_valid_up_to(bytes);
            proof { lemma_valid_prefix(bytes@, bytes@.len() as int); lemma_take_full(bytes@); }
            if k == bytes.len() {
                let v = vstd::slice::slice_to_vec(bytes);
                match bytes_to_string(v) {
                    Some(s) => return Ok(s),
                    None => return Err(EdifactError::InvalidText { offset: k }),
                }
            }
            return Err(EdifactError::InvalidText { offset: k });
        }
        let mut out = String::new();
        let mut i: usize = 0;
        while i < bytes.len()
            invariant
                i <= bytes@.len(),
                decodes_bytes(self, bytes@.take(i as int), out@),
                first_undefined(self, bytes@, 0) == first_undefined(self, bytes@, i as int),
                !(all_ascii(bytes@) || utf8_repertoire(self)),
            decreases bytes@.len() - i,
        {
            let b = bytes[i];
            proof { assert(bytes@.take(i + 1) =~= bytes@.take(i as int).push(b)); }
            if b < 0x80 {
                crate::text::string_push(&mut out, b as char);
            } else {
                match self.decode_byte(b) {
                    Some(ch) => {
                        crate::text::string_push(&mut out, ch);
                    },
                    None => return Err(EdifactError::InvalidText { offset: i }),
                }
            }
            i = i + 1;
        }
        proof { lemma_take_full(bytes@); }
        Ok(out)
    }

    /// Encodes text in this repertoire: the UTF-8 bytes for `UNOY`, one byte
    /// per character otherwise; a character with no byte is
    /// `CharacterNotInRepertoire`, with its byte offset in the text.
    pub fn encode(self, text: &str) -> (r: Result<Vec<u8>, EdifactError>)
        ensures
            self == Charset::UnoY ==> (r matches Ok(b) && b@ == encode_utf8(text@)),
            self != Charset::UnoY ==> (if first_unencodable(self, text@, 0) < 0 {
                r matches Ok(b) && b@ == encode_chars(self, text@)
            } else {
                let i = first_unencodable(self, text@, 0);
                r matches Err(EdifactError::CharacterNotInRepertoire { charset, character, offset })
                    && charset@ == charset_id(self) && character == text@[i] && offset == utf8_len(text@.take(i))
            }),
    {
        if self == Charset::UnoY {
            return Ok(vstd::slice::slice_to_vec(text.as_bytes()));
        }
        let nbytes = text.as_bytes().len();
        let chars = crate::text::to_chars(text);
        let mut out: Vec<u8> = Vec::new();
        let mut off: usize = 0;
        let mut i: usize = 0;
        while i < chars.len()
            invariant
                chars@ == text@,
                i <= chars@.len(),
                off == utf8_len(text@.take(i as int)),
                utf8_len(text@) == nbytes as int,
                self != Charset::UnoY,
                out@ == encode_chars(self, text@.take(i as int)),
                first_unencodable(self, text@, 0) == first_unencodable(self, text@, i as int),
            decreases chars@.len() - i,
        {
            let ch = chars[i];
            proof {
                assert(text@.take(i + 1) =~= text@.take(i as int).push(ch));
                lemma_utf8_len_push(text@.take(i as int), ch);
                lemma_utf8_len_prefix(text@, i + 1);
            }
            match self.encode_char(ch) {
                Some(b) => {
                    out.push(b);
                    proof { assert(out@ =~= encode_chars(self, text@.take(i + 1))); }
                },
                None => {
                    return Err(EdifactError::CharacterNotInRepertoire {
                        charset: self.syntax_identifier(),
                        character: ch,
                        offset: off,
                    });
                },
            }
            off = off + char_width(ch);
            i = i + 1;
        }
        proof { assert(text@.take(text@.len() as int) =~= text@); }
        Ok(out)
    }

    /// The input re-encoded as UTF-8: the bytes of its decoded text; bytes
    /// that do not decode are `InvalidText`, as [`Charset::decode`] says.
    pub fn transcode_to_utf8(self, bytes: &[u8]) -> (r: Result<Vec<u8>, EdifactError>)
        ensures
            match decode_failure(self, bytes@) {
                None => r matches Ok(b) && exists|s: String| #[trigger] decode_ok(self, bytes@, s@) && b@ == encode_utf8(s@),
                Some(offset) => r == Err::<Vec<u8>, EdifactError>(EdifactError::InvalidText { offset }),
            },
            (all_ascii(bytes@) || utf8_repertoire(self)) && valid_utf8(bytes@) ==> (r matches Ok(b) && b@ == bytes@),
    {
        match self.decode(bytes) {
            Ok(s) => {
                let v = vstd::slice::slice_to_vec(s.as_str().as_bytes());
                proof {
                    assert(decode_ok(self, bytes@, s@));
                    if (all_ascii(bytes@) || utf8_repertoire(self)) && valid_utf8(bytes@) {
                        vstd::utf8::decode_utf8_encode_utf8(bytes@);
                    }
                }
                Ok(v)
            },
            Err(e) => Err(e),
        }
    }
}

/// Where [`Charset::decode`] fails on `b`, or `None` where it succeeds.
pub open spec fn decode_failure(c: Charset, b: Seq<u8>) -> Option<usize> {
    if all_ascii(b) || utf8_repertoire(c) {
        if valid_utf8(b) { None } else { Some(valid_prefix_len(b, b.len() as int) as usize) }
    } else {
        if first_undefined(c, b, 0) < 0 { None } else { Some(first_undefined(c, b, 0) as usize) }
    }
}

/// `s` is what [`Charset::decode`] makes of `b`.
pub open spec fn decode_ok(c: Charset, b: Seq<u8>, s: Seq<char>) -> bool {
    if all_ascii(b) || utf8_repertoire(c) {
        valid_utf8(b) && s == decode_utf8(b)
    } else {
        first_undefined(c, b, 0) < 0 && decodes_bytes(c, b, s)
    }
}

fn is_ascii_bytes(b: &[u8]) -> (r: bool)
    ensures
        r == all_ascii(b@),
{
    let mut i: usize = 0;
    while i < b.len()
        invariant
            i <= b@.len(),
            forall|j: int| 0 <= j < i ==> b@[j] < 0x80,
        decreases b@.len() - i,
    {
        if b[i] >= 0x80 {
            return false;
        }
        i = i + 1;
    }
    true
}

/// Whether `UNB` followed by the element separator stands at `p`.
pub open spec fn unb_at(input: Seq<u8>, p: int, s: ServiceStringAdvice) -> bool {
    p + 4 <= input.len() && input[p] == 85u8 && input[p + 1] == 78u8 && input[p + 2] == 66u8 && input[p + 3] == s.element_sep
}

/// The end of the syntax identifier that starts at `k`: the first component
/// or element separator or terminator, or the end of the input.
pub open spec fn id_end(input: Seq<u8>, s: ServiceStringAdvice, k: int) -> int
    decreases input.len() - k,
{
    if k >= input.len() {
        input.len() as int
    } else if input[k] == s.component_sep || input[k] == s.element_sep || input[k] == s.segment_term {
        k
    } else {
        id_end(input, s, k + 1)
    }
}

/// `r` is what [`Charset::from_syntax_identifier`] answers for `id`, wrapped in `Some`.
pub open spec fn named_result(id: Seq<char>, r: Result<Option<Charset>, EdifactError>) -> bool {
    match charset_named(id) {
        Some(c) => r == Ok::<Option<Charset>, EdifactError>(Some(c)),
        None => if id == "UNOX"@ || id == "KECA"@ {
            r matches Err(EdifactError::UnsupportedCharset { syntax_identifier }) && syntax_identifier@ == id
        } else {
            r matches Err(EdifactError::UnrecognisedSyntaxIdentifier(x)) && x@ == id
        },
    }
}

/// What [`sniff_charset`] answers for `input`.
pub open spec fn sniff_is(input: Seq<u8>, r: Result<Option<Charset>, EdifactError>) -> bool {
    match declared_ssa(input) {
        Some(None) => r matches Err(EdifactError::InvalidUna),
        _ => {
            let s = match declared_ssa(input) { Some(Some(d)) => d, _ => default_ssa() };
            let p = skip_ws(input, body_start(input));
            if !unb_at(input, p, s) {
                r == Ok::<Option<Charset>, EdifactError>(None)
            } else {
                let st = p + 4;
                let id = input.subrange(st, id_end(input, s, st));
                if !valid_utf8(id) {
                    r == Err::<Option<Charset>, EdifactError>(EdifactError::InvalidText { offset: st as usize })
                } else if id.len() == 0 {
                    r == Ok::<Option<Charset>, EdifactError>(None)
                } else {
                    named_result(decode_utf8(id), r)
                }
            }
        },
    }
}

/// Reads the repertoire an interchange declares in UNB S001 DE 0001, straight
/// from its bytes: `None` when there is no `UNB` (after an optional `UNA`
/// and whitespace) or its identifier is empty.
pub fn sniff_charset(input: &[u8]) -> (r: Result<Option<Charset>, EdifactError>)
    ensures
        sniff_is(input@, r),
{
    let s = match ServiceStringAdvice::from_bytes(input) {
        Ok(s) => s,
        Err(e) => return Err(e),
    };
    let n = input.len();
    let start_pos: usize = if n >= 9 && input[0] == 85u8 && input[1] == 78u8 && input[2] == 65u8 { 9 } else { 0 };
    let p = crate::parser::skip_whitespace_from(input, start_pos);
    if n < 4 || p > n - 4 || input[p] != 85u8 || input[p + 1] != 78u8 || input[p + 2] != 66u8 || input[p + 3] != s.element_sep {
        return Ok(None);
    }
    let st = p + 4;
    let mut en = st;
    while en < n && input[en] != s.component_sep && input[en] != s.element_sep && input[en] != s.segment_term
        invariant
            st <= en <= n,
            n == input@.len(),
            id_end(input@, s, st as int) == id_end(input@, s, en as int),
        decreases n - en,
    {
        en = en + 1;
    }
    let mut idb: Vec<u8> = Vec::new();
    let mut k = st;
    while k < en
        invariant
            st <= k <= en <= n,
            n == input@.len(),
            idb@ == input@.subrange(st as int, k as int),
        decreases en - k,
    {
        idb.push(input[k]);
        proof { assert(idb@ =~= input@.subrange(st as int, k + 1)); }
        k = k + 1;
    }
    let empty = idb.len() == 0;
    match bytes_to_string(idb) {
        None => Err(EdifactError::InvalidText { offset: st }),
        Some(id) => {
            if empty {
                proof { assert(input@.subrange(st as int, en as int).len() == 0); }
                return Ok(None);
            }
            match Charset::from_syntax_identifier(id.as_str()) {
                Ok(c) => Ok(Some(c)),
                Err(e) => Err(e),
            }
        },
    }
}

/// The interchange re-encoded as UTF-8 according to the repertoire its own
/// `UNB` declares; an input that declares none is returned unchanged.
pub fn decode_interchange(input: &[u8]) -> (r: Result<Vec<u8>, EdifactError>)
    ensures
        forall|c: Charset| sniff_is(input@, Ok(Some(c))) ==> (match decode_failure(c, input@) {
            None => r matches Ok(b) && exists|t: String| #[trigger] decode_ok(c, input@, t@) && b@ == encode_utf8(t@),
            Some(offset) => r == Err::<Vec<u8>, EdifactError>(EdifactError::InvalidText { offset }),
        }),
        sniff_is(input@, Ok(None)) ==> (r matches Ok(b) && b@ == input@),
        forall|x: Result<Option<Charset>, EdifactError>| #[trigger] sniff_is(input@, x) && x is Err ==>
            (r matches Err(e) && sniff_is(input@, Err(e))),
{
    match sniff_charset(input) {
        Err(e) => Err(e),
        Ok(None) => Ok(vstd::slice::slice_to_vec(input)),
        Ok(Some(c)) => c.transcode_to_utf8(input),
    }
}

// ── transcoding a stream, one chunk at a time ──────────────────────────────

/// The UTF-8 bytes one input byte stands for when a stream is transcoded
/// byte by byte: a byte below 0x80, and every byte of a repertoire that is
/// UTF-8 already, passes through; an upper-half byte becomes the encoding of
/// the character it stands for; an undefined one has none.
pub open spec fn byte_out(c: Charset, b: u8) -> Option<Seq<u8>> {
    if b < 0x80 || utf8_repertoire(c) {
        Some(seq![b])
    } else {
        match decode_high(c, b) {
            Some(code) => Some(encode_scalar(code)),
            None => None,
        }
    }
}

/// The bytes `b` transcodes to, byte by byte, or `None` where one of them is
/// undefined in `c`.
pub open spec fn stream_decoded(c: Charset, b: Seq<u8>) -> Option<Seq<u8>>
    decreases b.len(),
{
    if b.len() == 0 {
        Some(Seq::empty())
    } else {
        match (stream_decoded(c, b.drop_last()), byte_out(c, b.last())) {
            (Some(x), Some(y)) => Some(x + y),
            _ => None,
        }
    }
}

/// Where a byte-by-byte transcoding of `b` fails: the first byte undefined in
/// `c` (no byte is, in a repertoire that is UTF-8 already), or -1.
pub open spec fn first_unmapped(c: Charset, b: Seq<u8>) -> int {
    if utf8_repertoire(c) { -1 } else { first_undefined(c, b, 0) }
}

proof fn lemma_first_unmapped_step(c: Charset, b: Seq<u8>, i: int)
    requires
        0 <= i < b.len(),
        !utf8_repertoire(c),
        first_undefined(c, b, 0) == first_undefined(c, b, i),
        byte_out(c, b[i]) is Some,
    ensures
        first_undefined(c, b, 0) == first_undefined(c, b, i + 1),
{
    assert(!(b[i] >= 0x80 && decode_high(c, b[i]) is None));
}

/// Transcodes one chunk of a stream from `c` to UTF-8, byte by byte.  Every
/// byte stands for itself alone, so nothing has to be held back between
/// chunks; a byte undefined in `c` is `InvalidText` at its offset in the
/// chunk.
pub fn decode_step(c: Charset, chunk: &[u8]) -> (r: Result<Vec<u8>, EdifactError>)
    ensures
        match stream_decoded(c, chunk@) {
            Some(out) => r matches Ok(v) && v@ == out,
            None => first_unmapped(c, chunk@) >= 0
                && r == Err::<Vec<u8>, EdifactError>(EdifactError::InvalidText { offset: first_unmapped(c, chunk@) as usize }),
        },
{
    let ghost b = chunk@;
    let utf8 = c.is_utf8();
    let mut out: Vec<u8> = Vec::new();
    let mut i: usize = 0;
    assert(b.take(0) =~= Seq::<u8>::empty());
    while i < chunk.len()
        invariant
            i <= b.len(),
            b == chunk@,
            utf8 == utf8_repertoire(c),
            stream_decoded(c, b.take(i as int)) == Some(out@),
            !utf8_repertoire(c) ==> first_undefined(c, b, 0) == first_undefined(c, b, i as int),
        decreases b.len() - i,
    {
        let byte = chunk[i];
        proof { assert(b.take(i + 1).drop_last() =~= b.take(i as int)); assert(b.take(i + 1).last() == byte); }
        if byte < 0x80u8 || utf8 {
            out.push(byte);
            proof { if !utf8 { lemma_first_unmapped_step(c, b, i as int); } }
        } else {
            match c.decode_byte(byte) {
                Some(ch) => {
                    let mut one = String::new();
                    crate::text::string_push(&mut one, ch);
                    let bs = one.as_str().as_bytes();
                    proof {
                        assert(one@ =~= seq![ch]);
                        assert(seq![ch].drop_first() =~= Seq::<char>::empty());
                        assert(encode_utf8(Seq::<char>::empty()) =~= Seq::<u8>::empty());
                        assert(encode_utf8(seq![ch]) =~= encode_scalar(ch as u32) + encode_utf8(Seq::<char>::empty()));
                        assert(encode_utf8(seq![ch]) =~= encode_scalar(ch as u32));
                    }
                    let mut k: usize = 0;
                    let ghost before = out@;
                    while k < bs.len()
                        invariant
                            k <= bs@.len(),
                            out@ == before + bs@.take(k as int),
                        decreases bs@.len() - k,
                    {
                        out.push(bs[k]);
                        proof { assert(bs@.take(k + 1) =~= bs@.take(k as int).push(bs@[k as int])); }
                        k = k + 1;
                    }
                    proof {
                        assert(bs@.take(bs@.len() as int) =~= bs@);
                        lemma_first_unmapped_step(c, b, i as int);
                    }
                },
                None => {
                    proof {
                        assert(first_undefined(c, b, i as int) == i as int);
                        lemma_stream_undefined(c, b, i as int);
                    }
                    return Err(EdifactError::InvalidText { offset: i });
                },
            }
        }
        i = i + 1;
    }
    proof { assert(b.take(b.len() as int) =~= b); }
    Ok(out)
}

proof fn lemma_stream_prefix(c: Charset, b: Seq<u8>, i: int, j: int)
    requires
        0 <= i <= j <= b.len(),
        stream_decoded(c, b.take(i)) is None,
    ensures
        stream_decoded(c, b.take(j)) is None,
    decreases j - i,
{
    if i < j {
        lemma_stream_prefix(c, b, i, j - 1);
        assert(b.take(j).drop_last() =~= b.take(j - 1));
    }
}

proof fn lemma_stream_undefined(c: Charset, b: Seq<u8>, i: int)
    requires
        0 <= i < b.len(),
        byte_out(c, b[i]) is None,
    ensures
        stream_decoded(c, b) is None,
{
    assert(b.take(i + 1).drop_last() =~= b.take(i));
    assert(b.take(i + 1).last() == b[i]);
    lemma_stream_prefix(c, b, i + 1, b.len() as int);
    assert(b.take(b.len() as int) =~= b);
}

/// Transcoding a stream chunk by chunk gives what transcoding it whole gives:
/// the output of `a` followed by `b` is the output of `a`, then that of `b`,
/// and it fails exactly where one of them does.
pub proof fn law_decode_steps_concatenate(c: Charset, a: Seq<u8>, b: Seq<u8>)
    ensures
        stream_decoded(c, a + b) == (match (stream_decoded(c, a), stream_decoded(c, b)) {
            (Some(x), Some(y)) => Some(x + y),
            _ => None::<Seq<u8>>,
        }),
    decreases b.len(),
{
    if b.len() == 0 {
        assert(a + b =~= a);
        if let Some(x) = stream_decoded(c, a) { assert(x + Seq::<u8>::empty() =~= x); }
    } else {
        law_decode_steps_concatenate(c, a, b.drop_last());
        assert((a + b).drop_last() =~= a + b.drop_last());
        assert((a + b).last() == b.last());
        match (stream_decoded(c, a), stream_decoded(c, b.drop_last()), byte_out(c, b.last())) {
            (Some(x), Some(y), Some(z)) => { assert(x + y + z =~= x + (y + z)); },
            _ => {},
        }
    }
}

// ── decoding inverts encoding ──────────────────────────────────────────────

proof fn lemma_table_index(c: Charset, code: u32, i: int)
    requires
        0 <= i,
        table_index_from(c, code, i) >= 0,
    ensures
        i <= table_index_from(c, code, i) < 96,
        high_table(c)[table_index_from(c, code, i)] != 0xFFFF,
        high_table(c)[table_index_from(c, code, i)] as u32 == code,
    decreases 96 - i,
{
    if i < 96 && !(high_table(c)[i] != 0xFFFF && high_table(c)[i] as u32 == code) {
        lemma_table_index(c, code, i + 1);
    }
}

proof fn lemma_byte_decodes_back(c: Charset, ch: char)
    requires
        !utf8_repertoire(c),
        encode_code(c, ch as u32) is Some,
    ensures
        ({
            let b = encode_code(c, ch as u32).unwrap();
            &&& (b < 0x80) == ((ch as u32) < 0x80)
            &&& byte_code(c, b) == ch as u32
            &&& (b >= 0x80 ==> decode_high(c, b) is Some)
        }),
{
    let code = ch as u32;
    assert(is_scalar_code(code));
    if code >= 0x80 && c != Charset::UnoC && code >= 0xA0 {
        lemma_table_index(c, code, 0);
        let i = table_index_from(c, code, 0);
        assert(((0xA0 + i) as u8) - 0xA0 == i);
    }
}

proof fn lemma_no_undefined(c: Charset, b: Seq<u8>, i: int)
    requires
        0 <= i,
        forall|j: int| 0 <= j < b.len() && b[j] >= 0x80 ==> decode_high(c, #[trigger] b[j]) is Some,
    ensures
        first_undefined(c, b, i) < 0,
    decreases b.len() - i,
{
    if i < b.len() {
        lemma_no_undefined(c, b, i + 1);
    }
}

/// In a single-byte repertoire, decoding what a text encodes to gives the
/// text back: the encoding decodes, and to nothing but the text.
pub proof fn law_decode_inverts_encode(c: Charset, s: Seq<char>)
    requires
        !utf8_repertoire(c),
        first_unencodable(c, s, 0) < 0,
    ensures
        decode_ok(c, encode_chars(c, s), s),
        forall|t: Seq<char>| #[trigger] decode_ok(c, encode_chars(c, s), t) ==> t == s,
{
    let b = encode_chars(c, s);
    assert forall|i: int| 0 <= i < s.len() implies #[trigger] encode_code(c, s[i] as u32) is Some by {
        lemma_encodable_at(c, s, 0, i);
    }
    assert forall|i: int| 0 <= i < s.len() implies ({
        let x = #[trigger] b[i];
        &&& (x < 0x80) == ((s[i] as u32) < 0x80)
        &&& byte_code(c, x) == s[i] as u32
        &&& (x >= 0x80 ==> decode_high(c, x) is Some)
    }) by {
        assert(encode_code(c, s[i] as u32) is Some);
        lemma_byte_decodes_back(c, s[i]);
    }
    if all_ascii(b) {
        assert(vstd::utf8::is_ascii_chars(s)) by {
            assert forall|i: int| 0 <= i < s.len() implies '\0' <= #[trigger] s[i] <= '\u{7f}' by {
                assert(b[i] < 0x80);
                assert(encode_code(c, s[i] as u32) is Some);
                lemma_byte_decodes_back(c, s[i]);
                assert(b[i] == encode_code(c, s[i] as u32).unwrap());
                assert((s[i] as u32) < 0x80);
                vstd::utf8::char_u32_cast(s[i], s[i] as u32);
            }
        }
        vstd::utf8::is_ascii_chars_encode_utf8(s);
        assert(encode_utf8(s) =~= b) by {
            assert forall|i: int| 0 <= i < s.len() implies encode_utf8(s)[i] == b[i] by {
                assert(s[i] as u8 == encode_utf8(s)[i]);
                assert(b[i] == s[i] as u32 as u8);
            }
        }
        vstd::utf8::encode_utf8_decode_utf8(s);
        vstd::utf8::encode_utf8_valid_utf8(s);
    } else {
        lemma_no_undefined(c, b, 0);
        assert(decodes_bytes(c, b, s));
        assert forall|t: Seq<char>| #[trigger] decode_ok(c, b, t) implies t == s by {
            assert(decodes_bytes(c, b, t));
            assert forall|i: int| 0 <= i < t.len() implies t[i] == s[i] by {
                assert((t[i] as u32) == byte_code(c, b[i]));
                assert(byte_code(c, b[i]) == s[i] as u32);
                vstd::utf8::char_u32_cast(s[i], s[i] as u32);
                vstd::utf8::char_u32_cast(t[i], t[i] as u32);
            }
            assert(t =~= s);
        }
    }
}

proof fn lemma_encodable_at(c: Charset, s: Seq<char>, i: int, k: int)
    requires
        0 <= i <= k < s.len(),
        first_unencodable(c, s, i) < 0,
    ensures
        encode_code(c, s[k] as u32) is Some,
    decreases k - i,
{
    if i < k {
        lemma_encodable_at(c, s, i + 1, k);
    }
}


/// Every repertoire is named by its syntax identifier and by no other: the
/// identifier of `c` names `c` (so reading back what is written gives the
/// same repertoire), and an identifier names `c` only if it is `c`'s.
pub proof fn law_identifier_names_its_repertoire(c: Charset, id: Seq<char>)
    ensures
        charset_named(charset_id(c)) == Some(c),
        charset_named(id) == Some(c) ==> id == charset_id(c),
{
    reveal_strlit("UNOA");
    assert("UNOA"@.len() == 4 && "UNOA"@[3] == 'A');
    reveal_strlit("UNOB");
    assert("UNOB"@.len() == 4 && "UNOB"@[3] == 'B');
    reveal_strlit("UNOC");
    assert("UNOC"@.len() == 4 && "UNOC"@[3] == 'C');
    reveal_strlit("UNOD");
    assert("UNOD"@.len() == 4 && "UNOD"@[3] == 'D');
    reveal_strlit("UNOE");
    assert("UNOE"@.len() == 4 && "UNOE"@[3] == 'E');
    reveal_strlit("UNOF");
    assert("UNOF"@.len() == 4 && "UNOF"@[3] == 'F');
    reveal_strlit("UNOG");
    assert("UNOG"@.len() == 4 && "UNOG"@[3] == 'G');
    reveal_strlit("UNOH");
    assert("UNOH"@.len() == 4 && "UNOH"@[3] == 'H');
    reveal_strlit("UNOI");
    assert("UNOI"@.len() == 4 && "UNOI"@[3] == 'I');
    reveal_strlit("UNOJ");
    assert("UNOJ"@.len() == 4 && "UNOJ"@[3] == 'J');
    reveal_strlit("UNOK");
    assert("UNOK"@.len() == 4 && "UNOK"@[3] == 'K');
    reveal_strlit("UNOY");
    assert("UNOY"@.len() == 4 && "UNOY"@[3] == 'Y');
}

/// `UNOC` is ISO 8859-1: every byte of the repertoire it names stands for the
/// code point of the same number.
pub proof fn law_unoc_is_latin1(b: u8)
    ensures
        charset_named("UNOC"@) matches Some(c) && decode_high(c, b) == Some(b as u32),
{
    reveal_strlit("UNOA");
    assert("UNOA"@.len() == 4 && "UNOA"@[3] == 'A');
    reveal_strlit("UNOB");
    assert("UNOB"@.len() == 4 && "UNOB"@[3] == 'B');
    reveal_strlit("UNOC");
    assert("UNOC"@.len() == 4 && "UNOC"@[3] == 'C');
    reveal_strlit("UNOD");
    assert("UNOD"@.len() == 4 && "UNOD"@[3] == 'D');
    reveal_strlit("UNOE");
    assert("UNOE"@.len() == 4 && "UNOE"@[3] == 'E');
    reveal_strlit("UNOF");
    assert("UNOF"@.len() == 4 && "UNOF"@[3] == 'F');
    reveal_strlit("UNOG");
    assert("UNOG"@.len() == 4 && "UNOG"@[3] == 'G');
    reveal_strlit("UNOH");
    assert("UNOH"@.len() == 4 && "UNOH"@[3] == 'H');
    reveal_strlit("UNOI");
    assert("UNOI"@.len() == 4 && "UNOI"@[3] == 'I');
    reveal_strlit("UNOJ");
    assert("UNOJ"@.len() == 4 && "UNOJ"@[3] == 'J');
    reveal_strlit("UNOK");
    assert("UNOK"@.len() == 4 && "UNOK"@[3] == 'K');
    reveal_strlit("UNOY");
    assert("UNOY"@.len() == 4 && "UNOY"@[3] == 'Y');
}

} // verus!
