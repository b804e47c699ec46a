use draco_rs::bits::{BitReader, BitWriter};
use draco_rs::symbol::{
    Balanced, CrLight, Symbol, SymbolEncodingConfig, SymbolError, SYMBOL_ENCODING_CONFIG_SLOT,
};

#[test]
fn test_crlight_symbol_set() {
    assert_eq!(CrLight::encode_symbol(Symbol::C), Ok((1, 0b0)));
    assert_eq!(CrLight::encode_symbol(Symbol::R), Ok((2, 0b10)));
    assert_eq!(CrLight::encode_symbol(Symbol::L), Ok((4, 0b1100)));
    assert_eq!(CrLight::encode_symbol(Symbol::E), Ok((4, 0b1101)));
    assert_eq!(CrLight::encode_symbol(Symbol::S), Ok((4, 0b1110)));
    // M(0): header 11110, size 00, then an 8-bit zero payload.
    assert_eq!(CrLight::encode_symbol(Symbol::M(0)), Ok((15, 0b11110 << 10)));
    assert_eq!(CrLight::encode_symbol(Symbol::H(0)), Ok((15, 0b11111 << 10)));
}

#[test]
fn test_balanced_symbol_set() {
    assert_eq!(Balanced::encode_symbol(Symbol::C), Ok((1, 0b0)));
    assert_eq!(Balanced::encode_symbol(Symbol::R), Ok((3, 0b100)));
    assert_eq!(Balanced::encode_symbol(Symbol::L), Ok((3, 0b110)));
    assert_eq!(Balanced::encode_symbol(Symbol::E), Ok((3, 0b101)));
    assert_eq!(Balanced::encode_symbol(Symbol::S), Ok((5, 0b11100)));
    assert_eq!(Balanced::encode_symbol(Symbol::M(0)), Ok((15, 0b11101 << 10)));
    assert_eq!(Balanced::encode_symbol(Symbol::H(0)), Ok((15, 0b11110 << 10)));
}

#[test]
fn test_mh_bit_widths() {
    // Payload slot widths are 8, 12, 16 and 20 bits; the header and size
    // field add seven bits.
    let cases = [
        (0usize, 15usize),
        (255, 15),
        (256, 19),
        (4095, 19),
        (4096, 23),
        (65535, 23),
        (65536, 27),
        (0xFFFFF, 27),
    ];
    for (n, w) in cases {
        let (mw, _) = CrLight::encode_symbol(Symbol::M(n)).unwrap();
        assert_eq!(mw, w);
        let (hw, _) = CrLight::encode_symbol(Symbol::H(n)).unwrap();
        assert_eq!(hw, w);
        let (bw, _) = Balanced::encode_symbol(Symbol::M(n)).unwrap();
        assert_eq!(bw, w);
    }
}

#[test]
fn test_size_too_large() {
    assert_eq!(
        CrLight::encode_symbol(Symbol::M(1 << 20)),
        Err(SymbolError::HoleSizeTooLarge)
    );
    assert_eq!(
        CrLight::encode_symbol(Symbol::H(1 << 20)),
        Err(SymbolError::HandleSizeTooLarge)
    );
    assert_eq!(
        Balanced::encode_symbol(Symbol::M(1 << 20)),
        Err(SymbolError::HoleSizeTooLarge)
    );
    assert_eq!(
        Balanced::encode_symbol(Symbol::H(1 << 20)),
        Err(SymbolError::HandleSizeTooLarge)
    );
}

fn sample_symbols() -> Vec<Symbol> {
    vec![
        Symbol::C,
        Symbol::R,
        Symbol::L,
        Symbol::E,
        Symbol::S,
        Symbol::M(0),
        Symbol::M(17),
        Symbol::M(255),
        Symbol::M(256),
        Symbol::M(4095),
        Symbol::M(4096),
        Symbol::M(65535),
        Symbol::M(65536),
        Symbol::M(0xFFFFF),
        Symbol::H(0),
        Symbol::H(300),
        Symbol::H(70000),
        Symbol::H(0xFFFFF),
    ]
}

#[test]
fn test_crlight_round_trip() {
    for s in sample_symbols() {
        let (w, p) = CrLight::encode_symbol(s).unwrap();
        let mut writer = BitWriter::new();
        writer.push_bits(w, p);
        let mut reader = BitReader::new(writer.into_bits());
        assert_eq!(CrLight::decode_symbol(&mut reader), s);
    }
}

#[test]
fn test_balanced_round_trip() {
    for s in sample_symbols() {
        let (w, p) = Balanced::encode_symbol(s).unwrap();
        let mut writer = BitWriter::new();
        writer.push_bits(w, p);
        let mut reader = BitReader::new(writer.into_bits());
        assert_eq!(Balanced::decode_symbol(&mut reader), s);
    }
}

#[test]
fn test_round_trip_stream() {
    // Several symbols back to back decode in order, each consuming exactly
    // its own bits.
    let symbols = vec![Symbol::C, Symbol::M(513), Symbol::S, Symbol::R, Symbol::H(9)];
    let mut writer = BitWriter::new();
    for s in &symbols {
        let (w, p) = CrLight::encode_symbol(*s).unwrap();
        writer.push_bits(w, p);
    }
    let mut reader = BitReader::new(writer.into_bits());
    for s in &symbols {
        assert_eq!(CrLight::decode_symbol(&mut reader), *s);
    }
}

#[test]
fn test_encoding_config_round_trip() {
    let all = [
        SymbolEncodingConfig::CrLight,
        SymbolEncodingConfig::Balanced,
        SymbolEncodingConfig::Rans,
    ];
    for c in all {
        let mut writer = BitWriter::new();
        c.write_symbol_encoding(&mut writer);
        let mut reader = BitReader::new(writer.into_bits());
        assert_eq!(SymbolEncodingConfig::get_symbol_encoding(&mut reader), Ok(c));
    }
}

#[test]
fn test_encoding_config_unknown_id() {
    let mut writer = BitWriter::new();
    writer.push_bits(SYMBOL_ENCODING_CONFIG_SLOT, 3);
    let mut reader = BitReader::new(writer.into_bits());
    assert_eq!(
        SymbolEncodingConfig::get_symbol_encoding(&mut reader),
        Err(SymbolError::UnknownSymbolEncoding)
    );
}

#[test]
fn test_config_tag_then_symbol_stream() {
    let mut writer = BitWriter::new();
    SymbolEncodingConfig::Balanced.write_symbol_encoding(&mut writer);
    for s in [Symbol::E, Symbol::M(77), Symbol::C] {
        let (w, p) = Balanced::encode_symbol(s).unwrap();
        writer.push_bits(w, p);
    }
    let mut reader = BitReader::new(writer.into_bits());
    assert_eq!(
        SymbolEncodingConfig::get_symbol_encoding(&mut reader),
        Ok(SymbolEncodingConfig::Balanced)
    );
    assert_eq!(Balanced::decode_symbol(&mut reader), Symbol::E);
    assert_eq!(Balanced::decode_symbol(&mut reader), Symbol::M(77));
    assert_eq!(Balanced::decode_symbol(&mut reader), Symbol::C);
}

#[test]
fn test_encoding_config_default() {
    assert_eq!(
        SymbolEncodingConfig::default(),
        SymbolEncodingConfig::CrLight
    );
}
