//! The syllable table used to render a digest readably: one short
//! syllable for each byte value.

use vstd::prelude::*;

verus! {

/// The syllable that stands for a byte value.
pub open spec fn spec_syllable(b: u8) -> Seq<char> {
    match b {
        0u8 => "plac"@,
        1u8 => "most "@,
        2u8 => "sam"@,
        3u8 => "ke"@,
        4u8 => "uth"@,
        5u8 => "arl "@,
        6u8 => "het"@,
        7u8 => "giv"@,
        8u8 => "fa"@,
        9u8 => "first "@,
        10u8 => "own "@,
        11u8 => "li"@,
        12u8 => "van"@,
        13u8 => "form "@,
        14u8 => "pres"@,
        15u8 => "ond"@,
        16u8 => "men "@,
        17u8 => "bef"@,
        18u8 => "old "@,
        19u8 => "agr"@,
        20u8 => "must "@,
        21u8 => "two "@,
        22u8 => "ight "@,
        23u8 => "mak"@,
        24u8 => "cons"@,
        25u8 => "nat"@,
        26u8 => "den"@,
        27u8 => "rem"@,
        28u8 => "inst"@,
        29u8 => "eb"@,
        30u8 => "itt"@,
        31u8 => "iss "@,
        32u8 => "tak"@,
        33u8 => "ars"@,
        34u8 => "ap"@,
        35u8 => "app"@,
        36u8 => "iz"@,
        37u8 => "wher"@,
        38u8 => "ec"@,
        39u8 => "mad"@,
        40u8 => "cont"@,
        41u8 => "pe"@,
        42u8 => "such "@,
        43u8 => "lik"@,
        44u8 => "ung"@,
        45u8 => "rec"@,
        46u8 => "gen"@,
        47u8 => "now "@,
        48u8 => "how "@,
        49u8 => "urs"@,
        50u8 => "wa"@,
        51u8 => "ver "@,
        52u8 => "than "@,
        53u8 => "don"@,
        54u8 => "com"@,
        55u8 => "mo"@,
        56u8 => "ught "@,
        57u8 => "pa"@,
        58u8 => "min"@,
        59u8 => "vi"@,
        60u8 => "comm"@,
        61u8 => "sho"@,
        62u8 => "thes"@,
        63u8 => "ents "@,
        64u8 => "then "@,
        65u8 => "aft"@,
        66u8 => "fe"@,
        67u8 => "ek"@,
        68u8 => "ha"@,
        69u8 => "ins "@,
        70u8 => "ep"@,
        71u8 => "ich"@,
        72u8 => "acc"@,
        73u8 => "elf"@,
        74u8 => "ans"@,
        75u8 => "can"@,
        76u8 => "ass"@,
        77u8 => "att"@,
        78u8 => "ni"@,
        79u8 => "ex"@,
        80u8 => "work "@,
        81u8 => "par"@,
        82u8 => "ef"@,
        83u8 => "te"@,
        84u8 => "part "@,
        85u8 => "ho"@,
        86u8 => "onl"@,
        87u8 => "des"@,
        88u8 => "vo"@,
        89u8 => "tim"@,
        90u8 => "ib"@,
        91u8 => "lo"@,
        92u8 => "has"@,
        93u8 => "tho"@,
        94u8 => "proj"@,
        95u8 => "ert"@,
        96u8 => "gre"@,
        97u8 => "ord"@,
        98u8 => "off "@,
        99u8 => "stat "@,
        100u8 => "what "@,
        101u8 => "ort"@,
        102u8 => "der"@,
        103u8 => "eg"@,
        104u8 => "gut"@,
        105u8 => "ach"@,
        106u8 => "art "@,
        107u8 => "si"@,
        108u8 => "ett "@,
        109u8 => "ern "@,
        110u8 => "als"@,
        111u8 => "enb"@,
        112u8 => "bo"@,
        113u8 => "ud"@,
        114u8 => "ys"@,
        115u8 => "them "@,
        116u8 => "som"@,
        117u8 => "mor"@,
        118u8 => "act"@,
        119u8 => "unt"@,
        120u8 => "who "@,
        121u8 => "ac"@,
        122u8 => "ak"@,
        123u8 => "ik"@,
        124u8 => "ish "@,
        125u8 => "ast "@,
        126u8 => "when "@,
        127u8 => "erg"@,
        128u8 => "po"@,
        129u8 => "ne"@,
        130u8 => "ard "@,
        131u8 => "will "@,
        132u8 => "go"@,
        133u8 => "ugh "@,
        134u8 => "ro"@,
        135u8 => "um"@,
        136u8 => "da"@,
        137u8 => "ens"@,
        138u8 => "ow"@,
        139u8 => "ja"@,
        140u8 => "my"@,
        141u8 => "ind"@,
        142u8 => "ok"@,
        143u8 => "op"@,
        144u8 => "wo"@,
        145u8 => "anc"@,
        146u8 => "ill"@,
        147u8 => "abl"@,
        148u8 => "ther"@,
        149u8 => "fo"@,
        150u8 => "she "@,
        151u8 => "av"@,
        152u8 => "him "@,
        153u8 => "ot"@,
        154u8 => "oth"@,
        155u8 => "ig"@,
        156u8 => "ov"@,
        157u8 => "its"@,
        158u8 => "ell"@,
        159u8 => "wer"@,
        160u8 => "enc"@,
        161u8 => "ma"@,
        162u8 => "man "@,
        163u8 => "di"@,
        164u8 => "od"@,
        165u8 => "end "@,
        166u8 => "do"@,
        167u8 => "up"@,
        168u8 => "re"@,
        169u8 => "no"@,
        170u8 => "im"@,
        171u8 => "le"@,
        172u8 => "ab"@,
        173u8 => "om"@,
        174u8 => "sa"@,
        175u8 => "ul"@,
        176u8 => "ant "@,
        177u8 => "co"@,
        178u8 => "if"@,
        179u8 => "uld "@,
        180u8 => "ist "@,
        181u8 => "hav"@,
        182u8 => "ons "@,
        183u8 => "la"@,
        184u8 => "we"@,
        185u8 => "from "@,
        186u8 => "me"@,
        187u8 => "had "@,
        188u8 => "but "@,
        189u8 => "her "@,
        190u8 => "which "@,
        191u8 => "so"@,
        192u8 => "ag"@,
        193u8 => "int"@,
        194u8 => "se"@,
        195u8 => "est"@,
        196u8 => "ol"@,
        197u8 => "os"@,
        198u8 => "qu"@,
        199u8 => "un"@,
        200u8 => "this "@,
        201u8 => "ev"@,
        202u8 => "ect "@,
        203u8 => "ers"@,
        204u8 => "iv"@,
        205u8 => "em"@,
        206u8 => "not "@,
        207u8 => "am"@,
        208u8 => "by"@,
        209u8 => "ess"@,
        210u8 => "und"@,
        211u8 => "ad"@,
        212u8 => "il"@,
        213u8 => "his"@,
        214u8 => "ir"@,
        215u8 => "all"@,
        216u8 => "for"@,
        217u8 => "was "@,
        218u8 => "id"@,
        219u8 => "de"@,
        220u8 => "with "@,
        221u8 => "et"@,
        222u8 => "that "@,
        223u8 => "be"@,
        224u8 => "ut"@,
        225u8 => "ic"@,
        226u8 => "us"@,
        227u8 => "el"@,
        228u8 => "ur"@,
        229u8 => "he"@,
        230u8 => "ent "@,
        231u8 => "as"@,
        232u8 => "or"@,
        233u8 => "al"@,
        234u8 => "ar"@,
        235u8 => "is"@,
        236u8 => "an"@,
        237u8 => "u"@,
        238u8 => "ing "@,
        239u8 => "at"@,
        240u8 => "it"@,
        241u8 => "es"@,
        242u8 => "to"@,
        243u8 => "and "@,
        244u8 => "en"@,
        245u8 => "on"@,
        246u8 => "of"@,
        247u8 => "ed "@,
        248u8 => "o"@,
        249u8 => "in"@,
        250u8 => "er"@,
        251u8 => "i"@,
        252u8 => "a"@,
        253u8 => "y"@,
        254u8 => "the "@,
        _ => "e"@,
    }
}

/// The syllable that stands for a byte value.
#[verifier::rlimit(50)]
pub fn syllable(b: u8) -> (r: &'static str)
    ensures
        r@ == spec_syllable(b),
{
    match b {
        0u8 => "plac",
        1u8 => "most ",
        2u8 => "sam",
        3u8 => "ke",
        4u8 => "uth",
        5u8 => "arl ",
        6u8 => "het",
        7u8 => "giv",
        8u8 => "fa",
        9u8 => "first ",
        10u8 => "own ",
        11u8 => "li",
        12u8 => "van",
        13u8 => "form ",
        14u8 => "pres",
        15u8 => "ond",
        16u8 => "men ",
        17u8 => "bef",
        18u8 => "old ",
        19u8 => "agr",
        20u8 => "must ",
        21u8 => "two ",
        22u8 => "ight ",
        23u8 => "mak",
        24u8 => "cons",
        25u8 => "nat",
        26u8 => "den",
        27u8 => "rem",
        28u8 => "inst",
        29u8 => "eb",
        30u8 => "itt",
        31u8 => "iss ",
        32u8 => "tak",
        33u8 => "ars",
        34u8 => "ap",
        35u8 => "app",
        36u8 => "iz",
        37u8 => "wher",
        38u8 => "ec",
        39u8 => "mad",
        40u8 => "cont",
        41u8 => "pe",
        42u8 => "such ",
        43u8 => "lik",
        44u8 => "ung",
        45u8 => "rec",
        46u8 => "gen",
        47u8 => "now ",
        48u8 => "how ",
        49u8 => "urs",
        50u8 => "wa",
        51u8 => "ver ",
        52u8 => "than ",
        53u8 => "don",
        54u8 => "com",
        55u8 => "mo",
        56u8 => "ught ",
        57u8 => "pa",
        58u8 => "min",
        59u8 => "vi",
        60u8 => "comm",
        61u8 => "sho",
        62u8 => "thes",
        63u8 => "ents ",
        64u8 => "then ",
        65u8 => "aft",
        66u8 => "fe",
        67u8 => "ek",
        68u8 => "ha",
        69u8 => "ins ",
        70u8 => "ep",
        71u8 => "ich",
        72u8 => "acc",
        73u8 => "elf",
        74u8 => "ans",
        75u8 => "can",
        76u8 => "ass",
        77u8 => "att",
        78u8 => "ni",
        79u8 => "ex",
        80u8 => "work ",
        81u8 => "par",
        82u8 => "ef",
        83u8 => "te",
        84u8 => "part ",
        85u8 => "ho",
        86u8 => "onl",
        87u8 => "des",
        88u8 => "vo",
        89u8 => "tim",
        90u8 => "ib",
        91u8 => "lo",
        92u8 => "has",
        93u8 => "tho",
        94u8 => "proj",
        95u8 => "ert",
        96u8 => "gre",
        97u8 => "ord",
        98u8 => "off ",
        99u8 => "stat ",
        100u8 => "what ",
        101u8 => "ort",
        102u8 => "der",
        103u8 => "eg",
        104u8 => "gut",
        105u8 => "ach",
        106u8 => "art ",
        107u8 => "si",
        108u8 => "ett ",
        109u8 => "ern ",
        110u8 => "als",
        111u8 => "enb",
        112u8 => "bo",
        113u8 => "ud",
        114u8 => "ys",
        115u8 => "them ",
        116u8 => "som",
        117u8 => "mor",
        118u8 => "act",
        119u8 => "unt",
        120u8 => "who ",
        121u8 => "ac",
        122u8 => "ak",
        123u8 => "ik",
        124u8 => "ish ",
        125u8 => "ast ",
        126u8 => "when ",
        127u8 => "erg",
        128u8 => "po",
        129u8 => "ne",
        130u8 => "ard ",
        131u8 => "will ",
        132u8 => "go",
        133u8 => "ugh ",
        134u8 => "ro",
        135u8 => "um",
        136u8 => "da",
        137u8 => "ens",
        138u8 => "ow",
        139u8 => "ja",
        140u8 => "my",
        141u8 => "ind",
        142u8 => "ok",
        143u8 => "op",
        144u8 => "wo",
        145u8 => "anc",
        146u8 => "ill",
        147u8 => "abl",
        148u8 => "ther",
        149u8 => "fo",
        150u8 => "she ",
        151u8 => "av",
        152u8 => "him ",
        153u8 => "ot",
        154u8 => "oth",
        155u8 => "ig",
        156u8 => "ov",
        157u8 => "its",
        158u8 => "ell",
        159u8 => "wer",
        160u8 => "enc",
        161u8 => "ma",
        162u8 => "man ",
        163u8 => "di",
        164u8 => "od",
        165u8 => "end ",
        166u8 => "do",
        167u8 => "up",
        168u8 => "re",
        169u8 => "no",
        170u8 => "im",
        171u8 => "le",
        172u8 => "ab",
        173u8 => "om",
        174u8 => "sa",
        175u8 => "ul",
        176u8 => "ant ",
        177u8 => "co",
        178u8 => "if",
        179u8 => "uld ",
        180u8 => "ist ",
        181u8 => "hav",
        182u8 => "ons ",
        183u8 => "la",
        184u8 => "we",
        185u8 => "from ",
        186u8 => "me",
        187u8 => "had ",
        188u8 => "but ",
        189u8 => "her ",
        190u8 => "which ",
        191u8 => "so",
        192u8 => "ag",
        193u8 => "int",
        194u8 => "se",
        195u8 => "est",
        196u8 => "ol",
        197u8 => "os",
        198u8 => "qu",
        199u8 => "un",
        200u8 => "this ",
        201u8 => "ev",
        202u8 => "ect ",
        203u8 => "ers",
        204u8 => "iv",
        205u8 => "em",
        206u8 => "not ",
        207u8 => "am",
        208u8 => "by",
        209u8 => "ess",
        210u8 => "und",
        211u8 => "ad",
        212u8 => "il",
        213u8 => "his",
        214u8 => "ir",
        215u8 => "all",
        216u8 => "for",
        217u8 => "was ",
        218u8 => "id",
        219u8 => "de",
        220u8 => "with ",
        221u8 => "et",
        222u8 => "that ",
        223u8 => "be",
        224u8 => "ut",
        225u8 => "ic",
        226u8 => "us",
        227u8 => "el",
        228u8 => "ur",
        229u8 => "he",
        230u8 => "ent ",
        231u8 => "as",
        232u8 => "or",
        233u8 => "al",
        234u8 => "ar",
        235u8 => "is",
        236u8 => "an",
        237u8 => "u",
        238u8 => "ing ",
        239u8 => "at",
        240u8 => "it",
        241u8 => "es",
        242u8 => "to",
        243u8 => "and ",
        244u8 => "en",
        245u8 => "on",
        246u8 => "of",
        247u8 => "ed ",
        248u8 => "o",
        249u8 => "in",
        250u8 => "er",
        251u8 => "i",
        252u8 => "a",
        253u8 => "y",
        254u8 => "the ",
        _ => "e",
    }
}

} // verus!
