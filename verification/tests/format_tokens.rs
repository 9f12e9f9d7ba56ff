use verovio::format::Format;

#[test]
fn tokens_are_fixed() {
    assert_eq!(Format::Abc.as_token(), "abc");
    assert_eq!(Format::Pae.as_token(), "pae");
    assert_eq!(Format::Darms.as_token(), "darms");
    assert_eq!(Format::VolPiano.as_token(), "volpiano");
    assert_eq!(Format::Cmme.as_token(), "cmme.xml");
    assert_eq!(Format::Humdrum.as_token(), "humdrum");
    assert_eq!(Format::Mei.as_token(), "mei");
    assert_eq!(Format::MusicXml.as_token(), "musicxml");
    assert_eq!(Format::MuseDataHum.as_token(), "musedata");
    assert_eq!(Format::MeiHum.as_token(), "mei-hum");
    assert_eq!(Format::Esac.as_token(), "esac");
    assert_eq!(Format::Serialization.as_token(), "mei-pb-serialized");
    assert_eq!(Format::Auto.as_token(), "auto");
    assert_eq!(Format::MusicxmlHum.as_token(), "musicxml-hum");
}

#[test]
fn tokens_are_nonempty() {
    let all = [
        Format::Abc,
        Format::Pae,
        Format::Darms,
        Format::VolPiano,
        Format::Cmme,
        Format::Humdrum,
        Format::Mei,
        Format::MusicXml,
        Format::MuseDataHum,
        Format::MeiHum,
        Format::Esac,
        Format::Serialization,
        Format::Auto,
        Format::MusicxmlHum,
    ];
    for f in all {
        assert!(!f.as_token().is_empty());
    }
}
