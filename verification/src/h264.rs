use vstd::prelude::*;

verus! {

/// The type of a NAL unit, as the H.264 standard numbers them (table 7-1).
#[derive(Clone, Copy, Debug, PartialEq, Eq)]
pub enum NalUnitType {
    Unspecified(u8),
    CodedSliceNonIDR,
    CodedSliceDataPartitionA,
    CodedSliceDataPartitionB,
    CodedSliceDataPartitionC,
    CodedSliceIDR,
    Sei,
    Sps,
    Pps,
    AccessUnitDelimiter,
    EndOfSequence,
    EndOfStream,
    FillerData,
    SpsExtension,
    PrefixNal,
    SubsetSps,
    DepthParameterSet,
    CodedSliceAuxiliary,
    CodedSliceExtension,
    CodedSliceExtensionDepth,
    Reserved(u8),
}

/// The type that table 7-1 gives to the five-bit code `code`.
pub open spec fn nal_unit_type_of(code: u8) -> NalUnitType {
    if code == 1 {
        NalUnitType::CodedSliceNonIDR
    } else if code == 2 {
        NalUnitType::CodedSliceDataPartitionA
    } else if code == 3 {
        NalUnitType::CodedSliceDataPartitionB
    } else if code == 4 {
        NalUnitType::CodedSliceDataPartitionC
    } else if code == 5 {
        NalUnitType::CodedSliceIDR
    } else if code == 6 {
        NalUnitType::Sei
    } else if code == 7 {
        NalUnitType::Sps
    } else if code == 8 {
        NalUnitType::Pps
    } else if code == 9 {
        NalUnitType::AccessUnitDelimiter
    } else if code == 10 {
        NalUnitType::EndOfSequence
    } else if code == 11 {
        NalUnitType::EndOfStream
    } else if code == 12 {
        NalUnitType::FillerData
    } else if code == 13 {
        NalUnitType::SpsExtension
    } else if code == 14 {
        NalUnitType::PrefixNal
    } else if code == 15 {
        NalUnitType::SubsetSps
    } else if code == 16 {
        NalUnitType::DepthParameterSet
    } else if code == 19 {
        NalUnitType::CodedSliceAuxiliary
    } else if code == 20 {
        NalUnitType::CodedSliceExtension
    } else if code == 21 {
        NalUnitType::CodedSliceExtensionDepth
    } else if code == 0 || code >= 24 {
        NalUnitType::Unspecified(code)
    } else {
        NalUnitType::Reserved(code)
    }
}

impl NalUnitType {
    /// Classifies a five-bit `nal_unit_type` code.
    pub fn from_code(code: u8) -> (t: NalUnitType)
        requires
            code < 32,
        ensures
            t == nal_unit_type_of(code),
    {
        match code {
            1 => NalUnitType::CodedSliceNonIDR,
            2 => NalUnitType::CodedSliceDataPartitionA,
            3 => NalUnitType::CodedSliceDataPartitionB,
            4 => NalUnitType::CodedSliceDataPartitionC,
            5 => NalUnitType::CodedSliceIDR,
            6 => NalUnitType::Sei,
            7 => NalUnitType::Sps,
            8 => NalUnitType::Pps,
            9 => NalUnitType::AccessUnitDelimiter,
            10 => NalUnitType::EndOfSequence,
            11 => NalUnitType::EndOfStream,
            12 => NalUnitType::FillerData,
            13 => NalUnitType::SpsExtension,
            14 => NalUnitType::PrefixNal,
            15 => NalUnitType::SubsetSps,
            16 => NalUnitType::DepthParameterSet,
            19 => NalUnitType::CodedSliceAuxiliary,
            20 => NalUnitType::CodedSliceExtension,
            21 => NalUnitType::CodedSliceExtensionDepth,
            17 | 18 | 22 | 23 => NalUnitType::Reserved(code),
            _ => NalUnitType::Unspecified(code),
        }
    }

    /// Whether this is supplemental enhancement information.
    pub fn is_sei(&self) -> (b: bool)
        ensures
            b == (*self == NalUnitType::Sei),
    {
        match self {
            NalUnitType::Sei => true,
            _ => false,
        }
    }
}

/// The one-byte header that opens every NAL unit.
#[derive(Clone, Copy, Debug, PartialEq, Eq)]
pub struct NalHeader {
    pub forbidden_zero_bit: bool,
    pub nal_ref_idc: u8,
    pub nal_unit_type: NalUnitType,
}

/// The header that the byte `b` encodes: bit 7 is `forbidden_zero_bit`,
/// bits 6..5 are `nal_ref_idc` and bits 4..0 are `nal_unit_type`.
pub open spec fn header_of(b: u8) -> NalHeader {
    NalHeader {
        forbidden_zero_bit: b / 128 == 1,
        nal_ref_idc: ((b / 32) % 4) as u8,
        nal_unit_type: nal_unit_type_of((b % 32) as u8),
    }
}

impl NalHeader {
    /// Splits a header byte into its three fields.
    pub fn parse(header: [u8; 1]) -> (h: NalHeader)
        ensures
            h == header_of(header[0]),
            h.forbidden_zero_bit == (header[0] & 0x80u8 != 0),
            h.nal_ref_idc == (header[0] >> 5u8) & 3u8,
            (h.nal_unit_type == NalUnitType::Sei) <==> (header[0] & 0x1fu8) == 6,
            (h.nal_unit_type == NalUnitType::AccessUnitDelimiter) <==> (header[0] & 0x1fu8) == 9,
    {
        proof {
            lemma_header_bits(header[0]);
            lemma_nal_type_table(header[0] & 0x1fu8);
        }
        let b = header[0];
        NalHeader {
            forbidden_zero_bit: b / 128 == 1,
            nal_ref_idc: (b / 32) % 4,
            nal_unit_type: NalUnitType::from_code(b % 32),
        }
    }
}

/// H.264 table 7-1, code by code: every five-bit code has the type the
/// table gives it, and no other code has that type.
pub proof fn lemma_nal_type_table(code: u8)
    requires
        code < 32,
    ensures
        (nal_unit_type_of(code) == NalUnitType::CodedSliceNonIDR) <==> code == 1,
        (nal_unit_type_of(code) == NalUnitType::CodedSliceDataPartitionA) <==> code == 2,
        (nal_unit_type_of(code) == NalUnitType::CodedSliceDataPartitionB) <==> code == 3,
        (nal_unit_type_of(code) == NalUnitType::CodedSliceDataPartitionC) <==> code == 4,
        (nal_unit_type_of(code) == NalUnitType::CodedSliceIDR) <==> code == 5,
        (nal_unit_type_of(code) == NalUnitType::Sei) <==> code == 6,
        (nal_unit_type_of(code) == NalUnitType::Sps) <==> code == 7,
        (nal_unit_type_of(code) == NalUnitType::Pps) <==> code == 8,
        (nal_unit_type_of(code) == NalUnitType::AccessUnitDelimiter) <==> code == 9,
        (nal_unit_type_of(code) == NalUnitType::EndOfSequence) <==> code == 10,
        (nal_unit_type_of(code) == NalUnitType::EndOfStream) <==> code == 11,
        (nal_unit_type_of(code) == NalUnitType::FillerData) <==> code == 12,
        (nal_unit_type_of(code) == NalUnitType::SpsExtension) <==> code == 13,
        (nal_unit_type_of(code) == NalUnitType::PrefixNal) <==> code == 14,
        (nal_unit_type_of(code) == NalUnitType::SubsetSps) <==> code == 15,
        (nal_unit_type_of(code) == NalUnitType::DepthParameterSet) <==> code == 16,
        (nal_unit_type_of(code) == NalUnitType::CodedSliceAuxiliary) <==> code == 19,
        (nal_unit_type_of(code) == NalUnitType::CodedSliceExtension) <==> code == 20,
        (nal_unit_type_of(code) == NalUnitType::CodedSliceExtensionDepth) <==> code == 21,
        (nal_unit_type_of(code) == NalUnitType::Reserved(code)) <==> (code == 17 || code == 18
            || code == 22 || code == 23),
        (nal_unit_type_of(code) == NalUnitType::Unspecified(code)) <==> (code == 0 || code >= 24),
{
}

/// The fields of a header byte, by bit extraction: bit 7 is the forbidden
/// bit, bits 6..5 are `nal_ref_idc`, and bits 4..0 are the type code, which
/// marks supplemental enhancement information exactly when it is 6.
pub proof fn lemma_header_bits(b: u8)
    ensures
        header_of(b).forbidden_zero_bit == (b & 0x80u8 != 0),
        header_of(b).nal_ref_idc == (b >> 5u8) & 3u8,
        header_of(b).nal_unit_type == nal_unit_type_of(b & 0x1fu8),
        (header_of(b).nal_unit_type == NalUnitType::Sei) <==> (b & 0x1fu8) == 6,
{
    assert(((b / 128) == 1) == (b & 0x80u8 != 0)) by (bit_vector);
    assert(((b / 32) % 4) as u8 == (b >> 5u8) & 3u8) by (bit_vector);
    assert((b % 32) as u8 == b & 0x1fu8) by (bit_vector);
    assert(b & 0x1fu8 < 32) by (bit_vector);
    lemma_nal_type_table(b & 0x1fu8);
}

} // verus!
