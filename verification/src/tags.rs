//! The WOFF2 "known table tags" list. A directory entry may reference a tag
//! by its six-bit index here instead of spelling out four bytes, so the order
//! of this list is normative and must not be rearranged.

use crate::bytes::{be32, u32_be, lemma_be32_roundtrip};
use vstd::prelude::*;

verus! {

/// Number of entries in the known-tag list; also the index reserved for "an
/// arbitrary four-byte tag follows this flags byte".
pub const ARBITRARY_TAG: u8 = 63;

/// A tag read as a big-endian number. Tags compare in the order of this
/// number, which is the byte-wise order of the four bytes.
pub open spec fn tag_number(t: Seq<u8>) -> u32 {
    be32(t, 0)
}

/// The tag at position `i` of the known-tag list, as a number.
pub open spec fn known_tag_number(i: u8) -> u32 {
    match i {
        0u8 => 0x636d6170, // cmap
        1u8 => 0x68656164, // head
        2u8 => 0x68686561, // hhea
        3u8 => 0x686d7478, // hmtx
        4u8 => 0x6d617870, // maxp
        5u8 => 0x6e616d65, // name
        6u8 => 0x4f532f32, // OS/2
        7u8 => 0x706f7374, // post
        8u8 => 0x63767420, // cvt 
        9u8 => 0x6670676d, // fpgm
        10u8 => 0x676c7966, // glyf
        11u8 => 0x6c6f6361, // loca
        12u8 => 0x70726570, // prep
        13u8 => 0x43464620, // CFF 
        14u8 => 0x564f5247, // VORG
        15u8 => 0x45424454, // EBDT
        16u8 => 0x45424c43, // EBLC
        17u8 => 0x67617370, // gasp
        18u8 => 0x68646d78, // hdmx
        19u8 => 0x6b65726e, // kern
        20u8 => 0x4c545348, // LTSH
        21u8 => 0x50434c54, // PCLT
        22u8 => 0x56444d58, // VDMX
        23u8 => 0x76686561, // vhea
        24u8 => 0x766d7478, // vmtx
        25u8 => 0x42415345, // BASE
        26u8 => 0x47444546, // GDEF
        27u8 => 0x47504f53, // GPOS
        28u8 => 0x47535542, // GSUB
        29u8 => 0x45425343, // EBSC
        30u8 => 0x4a535446, // JSTF
        31u8 => 0x4d415448, // MATH
        32u8 => 0x43424454, // CBDT
        33u8 => 0x43424c43, // CBLC
        34u8 => 0x434f4c52, // COLR
        35u8 => 0x4350414c, // CPAL
        36u8 => 0x53564720, // SVG 
        37u8 => 0x73626978, // sbix
        38u8 => 0x61636e74, // acnt
        39u8 => 0x61766172, // avar
        40u8 => 0x62646174, // bdat
        41u8 => 0x626c6f63, // bloc
        42u8 => 0x62736c6e, // bsln
        43u8 => 0x63766172, // cvar
        44u8 => 0x66647363, // fdsc
        45u8 => 0x66656174, // feat
        46u8 => 0x666d7478, // fmtx
        47u8 => 0x66766172, // fvar
        48u8 => 0x67766172, // gvar
        49u8 => 0x68737479, // hsty
        50u8 => 0x6a757374, // just
        51u8 => 0x6c636172, // lcar
        52u8 => 0x6d6f7274, // mort
        53u8 => 0x6d6f7278, // morx
        54u8 => 0x6f706264, // opbd
        55u8 => 0x70726f70, // prop
        56u8 => 0x7472616b, // trak
        57u8 => 0x5a617066, // Zapf
        58u8 => 0x53696c66, // Silf
        59u8 => 0x476c6174, // Glat
        60u8 => 0x476c6f63, // Gloc
        61u8 => 0x46656174, // Feat
        62u8 => 0x53696c6c, // Sill
        _ => 0,
    }
}

/// The position of a tag number in the known-tag list, if it is there.
pub open spec fn known_index(v: u32) -> Option<u8> {
    match v {
        0x636d6170 => Some(0u8),
        0x68656164 => Some(1u8),
        0x68686561 => Some(2u8),
        0x686d7478 => Some(3u8),
        0x6d617870 => Some(4u8),
        0x6e616d65 => Some(5u8),
        0x4f532f32 => Some(6u8),
        0x706f7374 => Some(7u8),
        0x63767420 => Some(8u8),
        0x6670676d => Some(9u8),
        0x676c7966 => Some(10u8),
        0x6c6f6361 => Some(11u8),
        0x70726570 => Some(12u8),
        0x43464620 => Some(13u8),
        0x564f5247 => Some(14u8),
        0x45424454 => Some(15u8),
        0x45424c43 => Some(16u8),
        0x67617370 => Some(17u8),
        0x68646d78 => Some(18u8),
        0x6b65726e => Some(19u8),
        0x4c545348 => Some(20u8),
        0x50434c54 => Some(21u8),
        0x56444d58 => Some(22u8),
        0x76686561 => Some(23u8),
        0x766d7478 => Some(24u8),
        0x42415345 => Some(25u8),
        0x47444546 => Some(26u8),
        0x47504f53 => Some(27u8),
        0x47535542 => Some(28u8),
        0x45425343 => Some(29u8),
        0x4a535446 => Some(30u8),
        0x4d415448 => Some(31u8),
        0x43424454 => Some(32u8),
        0x43424c43 => Some(33u8),
        0x434f4c52 => Some(34u8),
        0x4350414c => Some(35u8),
        0x53564720 => Some(36u8),
        0x73626978 => Some(37u8),
        0x61636e74 => Some(38u8),
        0x61766172 => Some(39u8),
        0x62646174 => Some(40u8),
        0x626c6f63 => Some(41u8),
        0x62736c6e => Some(42u8),
        0x63766172 => Some(43u8),
        0x66647363 => Some(44u8),
        0x66656174 => Some(45u8),
        0x666d7478 => Some(46u8),
        0x66766172 => Some(47u8),
        0x67766172 => Some(48u8),
        0x68737479 => Some(49u8),
        0x6a757374 => Some(50u8),
        0x6c636172 => Some(51u8),
        0x6d6f7274 => Some(52u8),
        0x6d6f7278 => Some(53u8),
        0x6f706264 => Some(54u8),
        0x70726f70 => Some(55u8),
        0x7472616b => Some(56u8),
        0x5a617066 => Some(57u8),
        0x53696c66 => Some(58u8),
        0x476c6174 => Some(59u8),
        0x476c6f63 => Some(60u8),
        0x46656174 => Some(61u8),
        0x53696c6c => Some(62u8),
        _ => None,
    }
}

/// The known-tag list names 63 distinct tags: each one's position is found
/// again from the tag.
pub proof fn lemma_known_tags_distinct()
    ensures
        forall|i: u8| i < ARBITRARY_TAG ==> #[trigger] known_index(known_tag_number(i)) == Some(i),
{
    assert(known_index(known_tag_number(0u8)) == Some(0u8));
    assert(known_index(known_tag_number(1u8)) == Some(1u8));
    assert(known_index(known_tag_number(2u8)) == Some(2u8));
    assert(known_index(known_tag_number(3u8)) == Some(3u8));
    assert(known_index(known_tag_number(4u8)) == Some(4u8));
    assert(known_index(known_tag_number(5u8)) == Some(5u8));
    assert(known_index(known_tag_number(6u8)) == Some(6u8));
    assert(known_index(known_tag_number(7u8)) == Some(7u8));
    assert(known_index(known_tag_number(8u8)) == Some(8u8));
    assert(known_index(known_tag_number(9u8)) == Some(9u8));
    assert(known_index(known_tag_number(10u8)) == Some(10u8));
    assert(known_index(known_tag_number(11u8)) == Some(11u8));
    assert(known_index(known_tag_number(12u8)) == Some(12u8));
    assert(known_index(known_tag_number(13u8)) == Some(13u8));
    assert(known_index(known_tag_number(14u8)) == Some(14u8));
    assert(known_index(known_tag_number(15u8)) == Some(15u8));
    assert(known_index(known_tag_number(16u8)) == Some(16u8));
    assert(known_index(known_tag_number(17u8)) == Some(17u8));
    assert(known_index(known_tag_number(18u8)) == Some(18u8));
    assert(known_index(known_tag_number(19u8)) == Some(19u8));
    assert(known_index(known_tag_number(20u8)) == Some(20u8));
    assert(known_index(known_tag_number(21u8)) == Some(21u8));
    assert(known_index(known_tag_number(22u8)) == Some(22u8));
    assert(known_index(known_tag_number(23u8)) == Some(23u8));
    assert(known_index(known_tag_number(24u8)) == Some(24u8));
    assert(known_index(known_tag_number(25u8)) == Some(25u8));
    assert(known_index(known_tag_number(26u8)) == Some(26u8));
    assert(known_index(known_tag_number(27u8)) == Some(27u8));
    assert(known_index(known_tag_number(28u8)) == Some(28u8));
    assert(known_index(known_tag_number(29u8)) == Some(29u8));
    assert(known_index(known_tag_number(30u8)) == Some(30u8));
    assert(known_index(known_tag_number(31u8)) == Some(31u8));
    assert(known_index(known_tag_number(32u8)) == Some(32u8));
    assert(known_index(known_tag_number(33u8)) == Some(33u8));
    assert(known_index(known_tag_number(34u8)) == Some(34u8));
    assert(known_index(known_tag_number(35u8)) == Some(35u8));
    assert(known_index(known_tag_number(36u8)) == Some(36u8));
    assert(known_index(known_tag_number(37u8)) == Some(37u8));
    assert(known_index(known_tag_number(38u8)) == Some(38u8));
    assert(known_index(known_tag_number(39u8)) == Some(39u8));
    assert(known_index(known_tag_number(40u8)) == Some(40u8));
    assert(known_index(known_tag_number(41u8)) == Some(41u8));
    assert(known_index(known_tag_number(42u8)) == Some(42u8));
    assert(known_index(known_tag_number(43u8)) == Some(43u8));
    assert(known_index(known_tag_number(44u8)) == Some(44u8));
    assert(known_index(known_tag_number(45u8)) == Some(45u8));
    assert(known_index(known_tag_number(46u8)) == Some(46u8));
    assert(known_index(known_tag_number(47u8)) == Some(47u8));
    assert(known_index(known_tag_number(48u8)) == Some(48u8));
    assert(known_index(known_tag_number(49u8)) == Some(49u8));
    assert(known_index(known_tag_number(50u8)) == Some(50u8));
    assert(known_index(known_tag_number(51u8)) == Some(51u8));
    assert(known_index(known_tag_number(52u8)) == Some(52u8));
    assert(known_index(known_tag_number(53u8)) == Some(53u8));
    assert(known_index(known_tag_number(54u8)) == Some(54u8));
    assert(known_index(known_tag_number(55u8)) == Some(55u8));
    assert(known_index(known_tag_number(56u8)) == Some(56u8));
    assert(known_index(known_tag_number(57u8)) == Some(57u8));
    assert(known_index(known_tag_number(58u8)) == Some(58u8));
    assert(known_index(known_tag_number(59u8)) == Some(59u8));
    assert(known_index(known_tag_number(60u8)) == Some(60u8));
    assert(known_index(known_tag_number(61u8)) == Some(61u8));
    assert(known_index(known_tag_number(62u8)) == Some(62u8));
}

/// A tag found in the list sits at the position that was found.
pub proof fn lemma_known_index_sound(v: u32)
    ensures
        known_index(v) matches Some(i) ==> i < ARBITRARY_TAG && known_tag_number(i) == v,
{
}

/// The number of a tag.
pub fn tag_value(t: &[u8; 4]) -> (v: u32)
    ensures
        v == tag_number(t@),
{
    (t[0] as u32) * 16777216 + (t[1] as u32) * 65536 + (t[2] as u32) * 256 + (t[3] as u32)
}

/// The tag whose number is `v`.
pub fn tag_from_value(v: u32) -> (t: [u8; 4])
    ensures
        t@ == u32_be(v),
        tag_number(t@) == v,
{
    let t = [(v / 16777216) as u8, ((v / 65536) % 256) as u8, ((v / 256) % 256) as u8, (v % 256) as u8];
    assert(t@ =~= u32_be(v));
    proof { lemma_be32_roundtrip(v); }
    t
}

fn known_tag_value(index: u8) -> (v: u32)
    requires
        index < ARBITRARY_TAG,
    ensures
        v == known_tag_number(index),
{
    match index {
        0u8 => 0x636d6170, // cmap
        1u8 => 0x68656164, // head
        2u8 => 0x68686561, // hhea
        3u8 => 0x686d7478, // hmtx
        4u8 => 0x6d617870, // maxp
        5u8 => 0x6e616d65, // name
        6u8 => 0x4f532f32, // OS/2
        7u8 => 0x706f7374, // post
        8u8 => 0x63767420, // cvt 
        9u8 => 0x6670676d, // fpgm
        10u8 => 0x676c7966, // glyf
        11u8 => 0x6c6f6361, // loca
        12u8 => 0x70726570, // prep
        13u8 => 0x43464620, // CFF 
        14u8 => 0x564f5247, // VORG
        15u8 => 0x45424454, // EBDT
        16u8 => 0x45424c43, // EBLC
        17u8 => 0x67617370, // gasp
        18u8 => 0x68646d78, // hdmx
        19u8 => 0x6b65726e, // kern
        20u8 => 0x4c545348, // LTSH
        21u8 => 0x50434c54, // PCLT
        22u8 => 0x56444d58, // VDMX
        23u8 => 0x76686561, // vhea
        24u8 => 0x766d7478, // vmtx
        25u8 => 0x42415345, // BASE
        26u8 => 0x47444546, // GDEF
        27u8 => 0x47504f53, // GPOS
        28u8 => 0x47535542, // GSUB
        29u8 => 0x45425343, // EBSC
        30u8 => 0x4a535446, // JSTF
        31u8 => 0x4d415448, // MATH
        32u8 => 0x43424454, // CBDT
        33u8 => 0x43424c43, // CBLC
        34u8 => 0x434f4c52, // COLR
        35u8 => 0x4350414c, // CPAL
        36u8 => 0x53564720, // SVG 
        37u8 => 0x73626978, // sbix
        38u8 => 0x61636e74, // acnt
        39u8 => 0x61766172, // avar
        40u8 => 0x62646174, // bdat
        41u8 => 0x626c6f63, // bloc
        42u8 => 0x62736c6e, // bsln
        43u8 => 0x63766172, // cvar
        44u8 => 0x66647363, // fdsc
        45u8 => 0x66656174, // feat
        46u8 => 0x666d7478, // fmtx
        47u8 => 0x66766172, // fvar
        48u8 => 0x67766172, // gvar
        49u8 => 0x68737479, // hsty
        50u8 => 0x6a757374, // just
        51u8 => 0x6c636172, // lcar
        52u8 => 0x6d6f7274, // mort
        53u8 => 0x6d6f7278, // morx
        54u8 => 0x6f706264, // opbd
        55u8 => 0x70726f70, // prop
        56u8 => 0x7472616b, // trak
        57u8 => 0x5a617066, // Zapf
        58u8 => 0x53696c66, // Silf
        59u8 => 0x476c6174, // Glat
        60u8 => 0x476c6f63, // Gloc
        61u8 => 0x46656174, // Feat
        62u8 => 0x53696c6c, // Sill
        _ => 0,
    }
}

/// The tag at `index` in the known-tag list.
pub fn tag_for_index(index: u8) -> (r: Option<[u8; 4]>)
    ensures
        match r {
            Some(t) => index < ARBITRARY_TAG && tag_number(t@) == known_tag_number(index)
                && t@ == u32_be(known_tag_number(index)),
            None => index >= ARBITRARY_TAG,
        },
{
    if index >= ARBITRARY_TAG {
        return None;
    }
    Some(tag_from_value(known_tag_value(index)))
}

/// The position of `tag` in the known-tag list, if it is there.
pub fn index_for_tag(tag: &[u8; 4]) -> (r: Option<u8>)
    ensures
        r == known_index(tag_number(tag@)),
{
    match tag_value(tag) {
        0x636d6170 => Some(0u8),
        0x68656164 => Some(1u8),
        0x68686561 => Some(2u8),
        0x686d7478 => Some(3u8),
        0x6d617870 => Some(4u8),
        0x6e616d65 => Some(5u8),
        0x4f532f32 => Some(6u8),
        0x706f7374 => Some(7u8),
        0x63767420 => Some(8u8),
        0x6670676d => Some(9u8),
        0x676c7966 => Some(10u8),
        0x6c6f6361 => Some(11u8),
        0x70726570 => Some(12u8),
        0x43464620 => Some(13u8),
        0x564f5247 => Some(14u8),
        0x45424454 => Some(15u8),
        0x45424c43 => Some(16u8),
        0x67617370 => Some(17u8),
        0x68646d78 => Some(18u8),
        0x6b65726e => Some(19u8),
        0x4c545348 => Some(20u8),
        0x50434c54 => Some(21u8),
        0x56444d58 => Some(22u8),
        0x76686561 => Some(23u8),
        0x766d7478 => Some(24u8),
        0x42415345 => Some(25u8),
        0x47444546 => Some(26u8),
        0x47504f53 => Some(27u8),
        0x47535542 => Some(28u8),
        0x45425343 => Some(29u8),
        0x4a535446 => Some(30u8),
        0x4d415448 => Some(31u8),
        0x43424454 => Some(32u8),
        0x43424c43 => Some(33u8),
        0x434f4c52 => Some(34u8),
        0x4350414c => Some(35u8),
        0x53564720 => Some(36u8),
        0x73626978 => Some(37u8),
        0x61636e74 => Some(38u8),
        0x61766172 => Some(39u8),
        0x62646174 => Some(40u8),
        0x626c6f63 => Some(41u8),
        0x62736c6e => Some(42u8),
        0x63766172 => Some(43u8),
        0x66647363 => Some(44u8),
        0x66656174 => Some(45u8),
        0x666d7478 => Some(46u8),
        0x66766172 => Some(47u8),
        0x67766172 => Some(48u8),
        0x68737479 => Some(49u8),
        0x6a757374 => Some(50u8),
        0x6c636172 => Some(51u8),
        0x6d6f7274 => Some(52u8),
        0x6d6f7278 => Some(53u8),
        0x6f706264 => Some(54u8),
        0x70726f70 => Some(55u8),
        0x7472616b => Some(56u8),
        0x5a617066 => Some(57u8),
        0x53696c66 => Some(58u8),
        0x476c6174 => Some(59u8),
        0x476c6f63 => Some(60u8),
        0x46656174 => Some(61u8),
        0x53696c6c => Some(62u8),
        _ => None,
    }
}

/// `index_for_tag` undoes `tag_for_index`, and the other way round.
pub proof fn lemma_index_and_tag_are_inverse(i: u8, t: Seq<u8>)
    requires
        t.len() == 4,
    ensures
        i < ARBITRARY_TAG ==> known_index(tag_number(u32_be(known_tag_number(i)))) == Some(i),
        known_index(tag_number(t)) matches Some(j) ==> j < ARBITRARY_TAG && u32_be(known_tag_number(j)) == t,
{
    lemma_known_tags_distinct();
    lemma_be32_roundtrip(known_tag_number(i));
    if i < ARBITRARY_TAG {
        assert(known_index(known_tag_number(i)) == Some(i));
    }
    lemma_known_index_sound(tag_number(t));
    if let Some(j) = known_index(tag_number(t)) {
        crate::bytes::lemma_be32_bytes(t);
    }
}

} // verus!
