//! The closed set of input/output format identifiers the native toolkit
//! understands, with their fixed wire tokens.

use vstd::prelude::*;

verus! {

/// An input/output format identifier, mapped to a fixed string token.
#[derive(Clone, Copy, Debug, PartialEq, Eq)]
pub enum Format {
    Abc,
    Pae,
    Darms,
    VolPiano,
    Cmme,
    Humdrum,
    Mei,
    MusicXml,
    MuseDataHum,
    MeiHum,
    Esac,
    Serialization,
    Auto,
    MusicxmlHum,
}

/// The wire token of a format, as the native layer spells it.
pub open spec fn spec_token(f: Format) -> Seq<char> {
    match f {
        Format::Abc => "abc"@,
        Format::Pae => "pae"@,
        Format::Darms => "darms"@,
        Format::VolPiano => "volpiano"@,
        Format::Cmme => "cmme.xml"@,
        Format::Humdrum => "humdrum"@,
        Format::Mei => "mei"@,
        Format::MusicXml => "musicxml"@,
        Format::MuseDataHum => "musedata"@,
        Format::MeiHum => "mei-hum"@,
        Format::Esac => "esac"@,
        Format::Serialization => "mei-pb-serialized"@,
        Format::Auto => "auto"@,
        Format::MusicxmlHum => "musicxml-hum"@,
    }
}

impl Format {
    /// The fixed string token for this format.
    pub fn as_token(&self) -> (r: &'static str)
        ensures
            r@ == spec_token(*self),
            r@.len() > 0,
    {
        proof {
            reveal_strlit("abc");
            reveal_strlit("pae");
            reveal_strlit("darms");
            reveal_strlit("volpiano");
            reveal_strlit("cmme.xml");
            reveal_strlit("humdrum");
            reveal_strlit("mei");
            reveal_strlit("musicxml");
            reveal_strlit("musedata");
            reveal_strlit("mei-hum");
            reveal_strlit("esac");
            reveal_strlit("mei-pb-serialized");
            reveal_strlit("auto");
            reveal_strlit("musicxml-hum");
        }
        match self {
            Format::Abc => "abc",
            Format::Pae => "pae",
            Format::Darms => "darms",
            Format::VolPiano => "volpiano",
            Format::Cmme => "cmme.xml",
            Format::Humdrum => "humdrum",
            Format::Mei => "mei",
            Format::MusicXml => "musicxml",
            Format::MuseDataHum => "musedata",
            Format::MeiHum => "mei-hum",
            Format::Esac => "esac",
            Format::Serialization => "mei-pb-serialized",
            Format::Auto => "auto",
            Format::MusicxmlHum => "musicxml-hum",
        }
    }
}

/// Every format token is non-empty, and no two formats share a token:
/// the mapping to wire tokens is total and injective.
pub proof fn lemma_tokens_distinct(a: Format, b: Format)
    ensures
        spec_token(a).len() > 0,
        a != b ==> spec_token(a) != spec_token(b),
{
    reveal_strlit("abc");
    reveal_strlit("pae");
    reveal_strlit("darms");
    reveal_strlit("volpiano");
    reveal_strlit("cmme.xml");
    reveal_strlit("humdrum");
    reveal_strlit("mei");
    reveal_strlit("musicxml");
    reveal_strlit("musedata");
    reveal_strlit("mei-hum");
    reveal_strlit("esac");
    reveal_strlit("mei-pb-serialized");
    reveal_strlit("auto");
    reveal_strlit("musicxml-hum");
    // Tokens of unequal length differ by congruence on the length; for
    // the same-length pairs, point at an index where the bytes differ.
    assert("abc"@[0] != "pae"@[0]);
    assert("abc"@[0] != "mei"@[0]);
    assert("pae"@[0] != "mei"@[0]);
    assert("esac"@[0] != "auto"@[0]);
    assert("humdrum"@[0] != "mei-hum"@[0]);
    assert("musicxml"@[3] != "musedata"@[3]);
    assert("musicxml"@[0] != "volpiano"@[0]);
    assert("musicxml"@[0] != "cmme.xml"@[0]);
    assert("musedata"@[0] != "volpiano"@[0]);
    assert("musedata"@[0] != "cmme.xml"@[0]);
    assert("volpiano"@[0] != "cmme.xml"@[0]);
    match a {
        Format::Abc => assert(spec_token(a) == "abc"@),
        Format::Pae => assert(spec_token(a) == "pae"@),
        Format::Darms => assert(spec_token(a) == "darms"@),
        Format::VolPiano => assert(spec_token(a) == "volpiano"@),
        Format::Cmme => assert(spec_token(a) == "cmme.xml"@),
        Format::Humdrum => assert(spec_token(a) == "humdrum"@),
        Format::Mei => assert(spec_token(a) == "mei"@),
        Format::MusicXml => assert(spec_token(a) == "musicxml"@),
        Format::MuseDataHum => assert(spec_token(a) == "musedata"@),
        Format::MeiHum => assert(spec_token(a) == "mei-hum"@),
        Format::Esac => assert(spec_token(a) == "esac"@),
        Format::Serialization => assert(spec_token(a) == "mei-pb-serialized"@),
        Format::Auto => assert(spec_token(a) == "auto"@),
        Format::MusicxmlHum => assert(spec_token(a) == "musicxml-hum"@),
    }
    match b {
        Format::Abc => assert(spec_token(b) == "abc"@),
        Format::Pae => assert(spec_token(b) == "pae"@),
        Format::Darms => assert(spec_token(b) == "darms"@),
        Format::VolPiano => assert(spec_token(b) == "volpiano"@),
        Format::Cmme => assert(spec_token(b) == "cmme.xml"@),
        Format::Humdrum => assert(spec_token(b) == "humdrum"@),
        Format::Mei => assert(spec_token(b) == "mei"@),
        Format::MusicXml => assert(spec_token(b) == "musicxml"@),
        Format::MuseDataHum => assert(spec_token(b) == "musedata"@),
        Format::MeiHum => assert(spec_token(b) == "mei-hum"@),
        Format::Esac => assert(spec_token(b) == "esac"@),
        Format::Serialization => assert(spec_token(b) == "mei-pb-serialized"@),
        Format::Auto => assert(spec_token(b) == "auto"@),
        Format::MusicxmlHum => assert(spec_token(b) == "musicxml-hum"@),
    }
}

} // verus!
