use uniprops::{CompiledTables, UnicodeRecord, UnipropsBuilder};

fn record(code_point: u32, name: &str, category: &str, digit: Option<u32>) -> UnicodeRecord {
    UnicodeRecord {
        code_point,
        name: name.to_string(),
        general_category: category.to_string(),
        canonical_combining_class: 0,
        bidi_category: "L".to_string(),
        decomposition: None,
        decimal_digit_value: digit,
        digit_value: digit,
        numeric_value: digit.map(|d| d.to_string()),
        bidi_mirrored: "N".to_string(),
        unicode_1_name: None,
        iso_comment: None,
        simple_uppercase_mapping: None,
        simple_lowercase_mapping: None,
        simple_titlecase_mapping: None,
    }
}

fn ascii_category(cp: u32) -> &'static str {
    match cp {
        0x00..=0x1F | 0x7F => "Cc",
        0x20 => "Zs",
        0x24 => "Sc",
        0x28 | 0x5B | 0x7B => "Ps",
        0x29 | 0x5D | 0x7D => "Pe",
        0x2B | 0x3C..=0x3E | 0x7C | 0x7E => "Sm",
        0x2D => "Pd",
        0x30..=0x39 => "Nd",
        0x41..=0x5A => "Lu",
        0x5E | 0x60 => "Sk",
        0x5F => "Pc",
        0x61..=0x7A => "Ll",
        _ => "Po",
    }
}

fn digits(out: &mut Vec<UnicodeRecord>, zero: u32, name: &str) {
    for value in 0..10 {
        out.push(record(zero + value, name, "Nd", Some(value)));
    }
}

fn pair(out: &mut Vec<UnicodeRecord>, first: u32, last: u32, name: &str, category: &str) {
    out.push(record(first, &format!("<{}, First>", name), category, None));
    out.push(record(last, &format!("<{}, Last>", name), category, None));
}

/// An excerpt of the character database, in ascending order.
fn unicode_data() -> Vec<UnicodeRecord> {
    let mut out = Vec::new();
    for cp in 0..0x80 {
        let category = ascii_category(cp);
        let digit = if category == "Nd" { Some(cp - 0x30) } else { None };
        let name = if category == "Cc" { "<control>" } else { "BASIC LATIN" };
        out.push(record(cp, name, category, digit));
    }
    out.push(record(0x00FF, "LATIN SMALL LETTER Y WITH DIAERESIS", "Ll", None));
    out.push(record(0x0100, "LATIN CAPITAL LETTER A WITH MACRON", "Lu", None));
    out.push(record(0x01FF, "LATIN SMALL LETTER O WITH STROKE AND ACUTE", "Ll", None));
    out.push(record(0x0200, "LATIN CAPITAL LETTER A WITH DOUBLE GRAVE", "Lu", None));
    out.push(record(0x0414, "CYRILLIC CAPITAL LETTER DE", "Lu", None));
    out.push(record(0x0434, "CYRILLIC SMALL LETTER DE", "Ll", None));
    digits(&mut out, 0x0660, "ARABIC-INDIC DIGIT");
    digits(&mut out, 0x0966, "DEVANAGARI DIGIT");
    out.push(record(0x1000, "MYANMAR LETTER KA", "Lo", None));
    out.push(record(0x200B, "ZERO WIDTH SPACE", "Cf", None));
    out.push(record(0x2211, "N-ARY SUMMATION", "Sm", None));
    pair(&mut out, 0x3400, 0x4DBF, "CJK Ideograph Extension A", "Lo");
    out.push(record(0x4DC0, "HEXAGRAM FOR THE CREATIVE HEAVEN", "So", None));
    pair(&mut out, 0x4E00, 0x9FFF, "CJK Ideograph", "Lo");
    pair(&mut out, 0xAC00, 0xD7A3, "Hangul Syllable", "Lo");
    pair(&mut out, 0xD800, 0xDB7F, "Non Private Use High Surrogate", "Cs");
    pair(&mut out, 0xDB80, 0xDBFF, "Private Use High Surrogate", "Cs");
    pair(&mut out, 0xDC00, 0xDFFF, "Low Surrogate", "Cs");
    pair(&mut out, 0xE000, 0xF8FF, "Private Use", "Co");
    out.push(record(0xFF0F, "FULLWIDTH SOLIDUS", "Po", None));
    digits(&mut out, 0xFF10, "FULLWIDTH DIGIT");
    out.push(record(0xFF1A, "FULLWIDTH COLON", "Po", None));
    out.push(record(0x10000, "LINEAR B SYLLABLE B008 A", "Lo", None));
    digits(&mut out, 0x1D7CE, "MATHEMATICAL BOLD DIGIT");
    digits(&mut out, 0x1D7D8, "MATHEMATICAL DOUBLE-STRUCK DIGIT");
    digits(&mut out, 0x1D7E2, "MATHEMATICAL SANS-SERIF DIGIT");
    digits(&mut out, 0x1D7EC, "MATHEMATICAL SANS-SERIF BOLD DIGIT");
    digits(&mut out, 0x1D7F6, "MATHEMATICAL MONOSPACE DIGIT");
    out.push(record(0x1D800, "SIGNWRITING HAND-FIST INDEX", "So", None));
    out.push(record(0x1F60A, "SMILING FACE WITH SMILING EYES", "So", None));
    pair(&mut out, 0xF0000, 0xFFFFD, "Plane 15 Private Use", "Co");
    pair(&mut out, 0x100000, 0x10FFFD, "Plane 16 Private Use", "Co");
    out
}

struct Tables(CompiledTables);

impl Tables {
    fn from_char(&self, c: char) -> Option<&str> {
        self.category(c as u32)
    }

    fn category(&self, cp: u32) -> Option<&str> {
        self.0.categories.as_ref().expect("category table").from_char(cp)
    }

    fn get_digit_value(&self, c: char) -> Option<u8> {
        self.digit(c as u32)
    }

    fn digit(&self, cp: u32) -> Option<u8> {
        self.0.digits.as_ref().expect("digit table").get_digit_value(cp)
    }
}

fn generated_uniprops() -> Tables {
    Tables(UnipropsBuilder::new().generate(unicode_data()))
}

fn filtered_digits() -> Tables {
    Tables(
        UnipropsBuilder::new()
            .filter(|r| r.general_category == "Nd")
            .out_file("filtered_digits.rs")
            .generate(unicode_data()),
    )
}

fn no_categories() -> CompiledTables {
    UnipropsBuilder::new().with_categories(false).out_file("no_categories.rs").generate(
        unicode_data(),
    )
}

fn without_0x38() -> Tables {
    Tables(
        UnipropsBuilder::new()
            .filter(|r| r.code_point != 0x38)
            .out_file("without_0x38.rs")
            .generate(unicode_data()),
    )
}

#[test]
fn test_ascii_categories() {
    let t = generated_uniprops();
    assert_eq!(t.from_char('A'), Some("Lu")); // Letter, Uppercase
    assert_eq!(t.from_char('a'), Some("Ll")); // Letter, Lowercase
    assert_eq!(t.from_char('0'), Some("Nd")); // Number, Decimal Digit
    assert_eq!(t.from_char(' '), Some("Zs")); // Separator, Space
    assert_eq!(t.from_char('.'), Some("Po")); // Punctuation, Other
    assert_eq!(t.from_char('\n'), Some("Cc")); // Other, Control
}

#[test]
fn test_unicode_categories() {
    let t = generated_uniprops();
    assert_eq!(t.from_char('Д'), Some("Lu"));
    assert_eq!(t.from_char('д'), Some("Ll"));

    assert_eq!(t.from_char('😊'), Some("So"));

    assert_eq!(t.from_char('∑'), Some("Sm"));

    assert_eq!(t.from_char('\u{200B}'), Some("Cf"));
}

#[test]
fn test_cjk_ideographs_ranges() {
    let t = generated_uniprops();
    assert_eq!(t.from_char('\u{4E00}'), Some("Lo")); // First
    assert_eq!(t.from_char('\u{5B57}'), Some("Lo")); // Middle ('字')
    assert_eq!(t.from_char('\u{9FFF}'), Some("Lo")); // Last
}

#[test]
fn test_ascii_digits_fast_path() {
    let t = generated_uniprops();
    for i in 0..=9 {
        let c = char::from_u32('0' as u32 + i).unwrap();
        assert_eq!(t.get_digit_value(c), Some(i as u8));
    }

    assert_eq!(t.get_digit_value('/'), None);
    assert_eq!(t.get_digit_value(':'), None);
    assert_eq!(t.get_digit_value('a'), None);
}

#[test]
fn test_unicode_digits_binary_search() {
    let t = generated_uniprops();
    for i in 0..=9 {
        let c = char::from_u32(0xFF10 + i).unwrap();
        assert_eq!(t.get_digit_value(c), Some(i as u8));
    }

    for i in 0..=9 {
        let c = char::from_u32(0x1D7CE + i).unwrap();
        assert_eq!(t.get_digit_value(c), Some(i as u8));
    }

    for i in 0..=9 {
        let c = char::from_u32(0x0660 + i).unwrap();
        assert_eq!(t.get_digit_value(c), Some(i as u8));
    }
    assert_eq!(t.get_digit_value(char::from_u32(0xFF0F).unwrap()), None); // Before fullwidth 0
    assert_eq!(t.get_digit_value(char::from_u32(0xFF1A).unwrap()), None); // After fullwidth 9
}

#[test]
fn test_exhaustively_all_unicode_chars() {
    let t = generated_uniprops();
    for cp in 0..=0x10FFFF {
        if let Some(c) = char::from_u32(cp) {
            let cat = t.from_char(c);
            let dig = t.get_digit_value(c);
            if dig.is_some() {
                assert_eq!(
                    cat,
                    Some("Nd"),
                    "U+{:04X} ({}): Has digit but not Nd category!",
                    cp,
                    c
                );
            }
            if cat == Some("Nd") {
                assert!(
                    dig.is_some(),
                    "U+{:04X} ({}): Has category Nd, but no digit value returned!",
                    cp,
                    c
                );
            }
        }
    }
}

#[test]
fn test_filtered_digits_module() {
    let t = filtered_digits();
    assert_eq!(t.from_char('0'), Some("Nd"));
    assert_eq!(t.from_char('7'), Some("Nd"));

    assert_eq!(t.from_char('A'), None);
    assert_eq!(t.from_char('a'), None);
    assert_eq!(t.from_char(' '), None);

    assert_eq!(t.get_digit_value('5'), Some(5));
    assert_eq!(t.get_digit_value('X'), None);
}

#[test]
fn test_no_categories_module() {
    let t = filtered_digits();
    assert_eq!(t.get_digit_value('9'), Some(9));
    assert_eq!(t.get_digit_value('Z'), None);

    let plain = no_categories();
    assert!(plain.categories.is_none());
    let digits = plain.digits.expect("digit table");
    assert_eq!(digits.get_digit_value('9' as u32), Some(9));
    assert_eq!(digits.get_digit_value('Z' as u32), None);
}

#[test]
fn test_exhaustive_no_panic_ub() {
    let t = generated_uniprops();
    for cp in 0..=0x10FFFF {
        if let Some(c) = char::from_u32(cp) {
            let _cat = t.from_char(c);
            let _dig = t.get_digit_value(c);
        }
    }
}

#[test]
fn test_extreme_codepoints() {
    let t = generated_uniprops();
    assert_eq!(t.from_char('\u{0000}'), Some("Cc"));

    assert_eq!(t.from_char('\u{10FFFF}'), None);

    let _ = t.from_char('\u{10FFFD}');
}

#[test]
fn test_trie_chunk_boundaries() {
    let t = generated_uniprops();
    let boundaries = [
        (0x00FF, 0x0100),
        (0x01FF, 0x0200),
        (0x0FFF, 0x1000),  // 4095 / 4096
        (0xFFFF, 0x10000), //
    ];

    for (end_of_block, start_of_next) in boundaries {
        if let Some(c1) = char::from_u32(end_of_block) {
            let _ = t.from_char(c1);
        }
        if let Some(c2) = char::from_u32(start_of_next) {
            let _ = t.from_char(c2);
        }
    }
}

#[test]
fn test_surrogate_neighbors() {
    let t = generated_uniprops();
    assert_eq!(t.from_char('\u{D7FF}'), None); // Unassigned
    assert_eq!(t.from_char('\u{D7A3}'), Some("Lo"));
    assert_eq!(t.from_char('\u{E000}'), Some("Co"));
}

#[test]
fn test_digit_array_bounds() {
    let t = generated_uniprops();
    assert_eq!(t.get_digit_value('\u{0030}'), Some(0));

    assert_eq!(t.get_digit_value('\u{002F}'), None); // '/'

    assert_eq!(t.get_digit_value('\u{1D7E1}'), Some(9));

    assert_eq!(t.get_digit_value('\u{1D7E2}'), Some(0));

    assert_eq!(t.get_digit_value('\u{1D800}'), None);
}

#[test]
fn test_if_excluded_digit_not_exists() {
    let t = without_0x38();
    // Up to U+007F the digit value is answered without the table: '8' keeps
    // its value although no record of it took part.
    assert_eq!(t.get_digit_value('\u{38}'), Some(8));
    assert_eq!(t.get_digit_value('\u{37}'), Some(7));
    assert_eq!(t.get_digit_value('\u{39}'), Some(9));

    assert_eq!(t.from_char('\u{38}'), None);
    assert_eq!(t.from_char('\u{37}'), Some("Nd"));
    assert_eq!(t.from_char('\u{39}'), Some("Nd"));
}

#[test]
fn chunk_boundaries_classify_independently() {
    let t = generated_uniprops();
    assert_eq!(t.category(0x00FF), Some("Ll"));
    assert_eq!(t.category(0x0100), Some("Lu"));
    assert_eq!(t.category(0x01FF), Some("Ll"));
    assert_eq!(t.category(0x0200), Some("Lu"));
    assert_eq!(t.category(0x0FFF), None);
    assert_eq!(t.category(0x1000), Some("Lo"));
    assert_eq!(t.category(0xFFFF), None);
    assert_eq!(t.category(0x10000), Some("Lo"));
}

#[test]
fn queries_answer_nothing_beyond_the_code_space() {
    let t = generated_uniprops();
    for cp in [0x110000u32, 0x110001, 0x7FFF_FFFF, u32::MAX] {
        assert_eq!(t.category(cp), None);
        assert_eq!(t.digit(cp), None);
    }
}

#[test]
fn surrogates_are_ordinary_code_points() {
    let t = generated_uniprops();
    assert_eq!(t.category(0xD800), Some("Cs"));
    assert_eq!(t.category(0xDABC), Some("Cs"));
    assert_eq!(t.category(0xDFFF), Some("Cs"));
    assert_eq!(t.digit(0xD800), None);
}

#[test]
fn literal_scenarios() {
    let t = generated_uniprops();
    assert_eq!(t.from_char('A'), Some("Lu"));
    assert_eq!(t.from_char('0'), Some("Nd"));
    assert_eq!(t.get_digit_value('0'), Some(0));
    assert_eq!(t.get_digit_value('9'), Some(9));
    assert_eq!(t.digit(0x0663), Some(3));
    assert_eq!(t.digit(0xFF10), Some(0));
    assert_eq!(t.digit(0xFF19), Some(9));
    assert_eq!(t.digit(0xFF0F), None);
    assert_eq!(t.category(0x110000), None);
    assert_eq!(t.category(0x0000), Some("Cc"));
}

#[test]
fn excluded_code_point_is_unassigned() {
    let t = Tables(
        UnipropsBuilder::new().filter(|r| r.code_point != 0x0663).generate(unicode_data()),
    );
    assert_eq!(t.category(0x0663), None);
    assert_eq!(t.digit(0x0663), None);
    assert_eq!(t.category(0x0662), Some("Nd"));
    assert_eq!(t.digit(0x0662), Some(2));
    assert_eq!(t.digit(0x0664), Some(4));
}

#[test]
fn unsorted_records_are_put_in_order() {
    let mut records = unicode_data();
    records.reverse();
    let t = Tables(UnipropsBuilder::new().generate(records));
    assert_eq!(t.from_char('A'), Some("Lu"));
    assert_eq!(t.from_char('z'), Some("Ll"));
    assert_eq!(t.digit(0x1D7E1), Some(9));
    assert_eq!(t.digit(0x0966), Some(0));
    assert_eq!(t.category(0x5B57), Some("Lo"));
}

#[test]
fn deduplicated_table_agrees_with_the_full_table() {
    let records = unicode_data();
    let runs = uniprops::runs::build_runs(&records);
    let table = uniprops::CategoryTable::build(&runs);
    for cp in 0..=0x10FFFFu32 {
        let direct = runs
            .iter()
            .find(|r| cp <= r.end)
            .filter(|r| r.start <= cp)
            .map(|r| r.general_category.as_str());
        assert_eq!(table.from_char(cp), direct, "U+{:04X}", cp);
    }
}

#[test]
fn table_shape() {
    let records = unicode_data();
    let runs = uniprops::runs::build_runs(&records);
    let table = uniprops::CategoryTable::build(&runs);
    assert_eq!(table.chunk_index().len(), 4352);
    let blocks = table.unique_blocks();
    for (i, block) in blocks.iter().enumerate() {
        assert_eq!(block.len(), 256);
        for other in &blocks[..i] {
            assert_ne!(block, other);
        }
    }
    for &number in table.chunk_index() {
        assert!(number < blocks.len());
    }
    assert_eq!(table.chunk_index()[0], 0);
    assert_eq!(table.index_width(), uniprops::IndexWidth::U8);
    let expected: Vec<String> =
        ["Cc", "Cf", "Co", "Cs", "Ll", "Lo", "Lu", "Nd", "Pc", "Pd", "Pe", "Po", "Ps", "Sc", "Sk", "Sm", "So", "Zs"]
            .iter()
            .map(|s| s.to_string())
            .collect();
    assert_eq!(table.categories(), &expected);
}

#[test]
fn builder_settings() {
    let b = UnipropsBuilder::new();
    assert_eq!(b.out_name(), "generated_uniprops.rs");
    assert!(b.generates_categories());
    assert!(b.generates_digits());
    let b = b.out_file("custom.rs").with_categories(false).with_digits(false);
    assert_eq!(b.out_name(), "custom.rs");
    assert!(!b.generates_categories());
    assert!(!b.generates_digits());
    let tables = b.generate(unicode_data());
    assert!(tables.categories.is_none());
    assert!(tables.digits.is_none());
}

#[test]
fn runs_of_no_records() {
    assert!(uniprops::runs::build_runs(&Vec::new()).is_empty());
    let table = uniprops::CategoryTable::build(&Vec::new());
    assert!(table.categories().is_empty());
    assert_eq!(table.unique_blocks().len(), 1);
    assert_eq!(table.from_char(0x41), None);
    let digits = uniprops::DigitTable::build(&Vec::new());
    assert!(digits.starts().is_empty());
    assert_eq!(digits.get_digit_value(0x41), None);
    assert_eq!(digits.get_digit_value(0x35), Some(5));
    assert_eq!(digits.get_digit_value(0x663), None);
}

fn spans(runs: &[uniprops::Run]) -> Vec<(&str, u32, u32)> {
    runs.iter().map(|r| (r.general_category.as_str(), r.start, r.end)).collect()
}

#[test]
fn runs_are_maximal() {
    let records = vec![
        record(0x41, "A", "Lu", None),
        record(0x42, "B", "Lu", None),
        record(0x43, "C", "Lu", None),
        record(0x45, "E", "Lu", None),
        record(0x46, "f", "Ll", None),
        record(0x47, "g", "Ll", None),
    ];
    let runs = uniprops::runs::build_runs(&records);
    assert_eq!(spans(&runs), vec![("Lu", 0x41, 0x43), ("Lu", 0x45, 0x45), ("Ll", 0x46, 0x47)]);
}

#[test]
fn closing_record_bridges_the_gap() {
    let records = vec![
        record(0x4DFF, "HEXAGRAM FOR BEFORE COMPLETION", "So", None),
        record(0x4E00, "<CJK Ideograph, First>", "Lo", None),
        record(0x9FFF, "<CJK Ideograph, Last>", "Lo", None),
        record(0xA000, "YI SYLLABLE IT", "Lo", None),
    ];
    let runs = uniprops::runs::build_runs(&records);
    assert_eq!(spans(&runs), vec![("So", 0x4DFF, 0x4DFF), ("Lo", 0x4E00, 0xA000)]);
}

#[test]
fn closing_record_joins_a_run_of_another_category() {
    let records = vec![
        record(0x4DFF, "HEXAGRAM FOR BEFORE COMPLETION", "So", None),
        record(0x9FFF, "<CJK Ideograph, Last>", "Lo", None),
        record(0xA000, "YI SYLLABLE IT", "Lo", None),
    ];
    let runs = uniprops::runs::build_runs(&records);
    assert_eq!(spans(&runs), vec![("So", 0x4DFF, 0x9FFF), ("Lo", 0xA000, 0xA000)]);
    let table = uniprops::CategoryTable::build(&runs);
    assert_eq!(table.from_char(0x4E00), Some("So"));
    assert_eq!(table.from_char(0x9FFF), Some("So"));
    assert_eq!(table.from_char(0xA000), Some("Lo"));
    assert_eq!(table.categories(), &vec!["Lo".to_string(), "So".to_string()]);
}

#[test]
fn excluding_the_first_of_a_pair_leaves_it_bridged() {
    let t = Tables(
        UnipropsBuilder::new().filter(|r| r.code_point != 0x4E00).generate(unicode_data()),
    );
    assert_eq!(t.category(0x4DC0), Some("So"));
    assert_eq!(t.category(0x4E00), Some("So"));
    assert_eq!(t.category(0x9FFF), Some("So"));
}

#[test]
fn a_name_with_a_comma_closes_nothing() {
    let records = vec![
        record(0x100, "A", "Lu", None),
        record(0x200, "A, B", "Lu", None),
        record(0x300, "C, Last", "Lu", None),
    ];
    let runs = uniprops::runs::build_runs(&records);
    assert_eq!(spans(&runs), vec![("Lu", 0x100, 0x100), ("Lu", 0x200, 0x200), ("Lu", 0x300, 0x300)]);
    let table = uniprops::CategoryTable::build(&runs);
    assert_eq!(table.from_char(0x150), None);
    assert_eq!(table.from_char(0x200), Some("Lu"));
    assert_eq!(table.from_char(0x250), None);
}

#[test]
fn opening_record_of_a_pair_does_not_merge() {
    let records = vec![
        record(0x33FF, "SQUARE GAL", "So", None),
        record(0x3400, "<CJK Ideograph Extension A, First>", "So", None),
        record(0x3402, "<CJK Ideograph Extension A, First>", "So", None),
    ];
    let runs = uniprops::runs::build_runs(&records);
    assert_eq!(spans(&runs), vec![("So", 0x33FF, 0x3400), ("So", 0x3402, 0x3402)]);
}

fn ranges(records: &Vec<UnicodeRecord>) -> Vec<(u32, u32, u8)> {
    uniprops::digits::build_digit_ranges(records)
        .iter()
        .map(|r| (r.start, r.end, r.base_val))
        .collect()
}

#[test]
fn digit_ranges_are_affine() {
    let mut records = Vec::new();
    digits(&mut records, 0x660, "ARABIC-INDIC DIGIT");
    assert_eq!(ranges(&records), vec![(0x660, 0x669, 0)]);

    // Two sets back to back: the value starts over, so does the range.
    digits(&mut records, 0x66A, "SECOND SET");
    assert_eq!(ranges(&records), vec![(0x660, 0x669, 0), (0x66A, 0x673, 0)]);

    // A gap in the code points, and a step in the values.
    let records = vec![
        record(0x100, "a", "Nd", Some(4)),
        record(0x101, "b", "Nd", Some(5)),
        record(0x102, "c", "Lo", None),
        record(0x103, "d", "Nd", Some(7)),
        record(0x104, "e", "Nd", Some(9)),
        record(0x105, "f", "Nd", Some(9)),
    ];
    assert_eq!(
        ranges(&records),
        vec![(0x100, 0x101, 4), (0x103, 0x103, 7), (0x104, 0x104, 9), (0x105, 0x105, 9)]
    );
    let table = uniprops::DigitTable::build(&records);
    assert_eq!(table.starts(), &vec![0x100, 0x103, 0x104, 0x105]);
    assert_eq!(table.ends(), &vec![0x101, 0x103, 0x104, 0x105]);
    assert_eq!(table.bases(), &vec![4, 7, 9, 9]);
    assert_eq!(table.get_digit_value(0xFF), None);
    assert_eq!(table.get_digit_value(0x100), Some(4));
    assert_eq!(table.get_digit_value(0x101), Some(5));
    assert_eq!(table.get_digit_value(0x102), None);
    assert_eq!(table.get_digit_value(0x103), Some(7));
    assert_eq!(table.get_digit_value(0x104), Some(9));
    assert_eq!(table.get_digit_value(0x105), Some(9));
    assert_eq!(table.get_digit_value(0x106), None);
}

#[test]
fn digit_values_keep_their_low_byte() {
    let records = vec![record(0x100, "a", "Nd", Some(0x103)), record(0x101, "b", "Nd", Some(4))];
    assert_eq!(ranges(&records), vec![(0x100, 0x101, 3)]);
}

#[test]
fn digit_table_from_ranges() {
    let ranges = vec![
        uniprops::DigitRange { start: 0x660, end: 0x669, base_val: 0 },
        uniprops::DigitRange { start: 0xFF10, end: 0xFF19, base_val: 0 },
    ];
    let table = uniprops::DigitTable::from_ranges(&ranges);
    assert_eq!(table.get_digit_value(0x65F), None);
    assert_eq!(table.get_digit_value(0x660), Some(0));
    assert_eq!(table.get_digit_value(0x669), Some(9));
    assert_eq!(table.get_digit_value(0x66A), None);
    assert_eq!(table.get_digit_value(0xFF15), Some(5));
    assert_eq!(table.get_digit_value(0x10FFFF), None);
}

#[test]
fn filter_answers_and_selection() {
    let records = vec![
        record(0x41, "A", "Lu", None),
        record(0x31, "1", "Nd", Some(1)),
        record(0x61, "a", "Ll", None),
    ];
    let only_letters = uniprops::Predicate(|r: &UnicodeRecord| r.general_category.starts_with('L'));
    let flags = uniprops::builder::verdicts(&only_letters, &records);
    assert_eq!(flags, vec![true, false, true]);
    assert_eq!(uniprops::builder::verdicts(&uniprops::Unfiltered, &records), vec![true, true, true]);
    let kept = uniprops::builder::retain(records, &flags);
    let points: Vec<u32> = kept.iter().map(|r| r.code_point).collect();
    assert_eq!(points, vec![0x41, 0x61]);
}

#[test]
fn index_width_grows_with_the_blocks() {
    // Each chunk gets contents of its own: a run of one code point at a
    // different offset, or of a different category.
    let mut records = Vec::new();
    for chunk in 0..300u32 {
        let category = if chunk < 256 { "Lu" } else { "Ll" };
        records.push(record(chunk * 256 + chunk % 256, "x", category, None));
    }
    let runs = uniprops::runs::build_runs(&records);
    let table = uniprops::CategoryTable::build(&runs);
    assert_eq!(table.unique_blocks().len(), 301);
    assert_eq!(table.index_width(), uniprops::IndexWidth::U16);
    for chunk in 0..300u32 {
        assert_eq!(table.chunk_index()[chunk as usize], chunk as usize);
    }
    assert_eq!(table.chunk_index()[300], 300);
    assert_eq!(table.chunk_index()[4351], 300);
}

#[test]
fn sets_with_running_values_merge() {
    // The second set goes on counting where the first stopped, so the two
    // make one range, and its later values are beyond nine.
    let mut records = Vec::new();
    for value in 0..20 {
        records.push(record(0x100 + value, "x", "Nd", Some(value)));
    }
    assert_eq!(ranges(&records), vec![(0x100, 0x113, 0)]);
    let table = uniprops::DigitTable::build(&records);
    assert_eq!(table.get_digit_value(0x109), Some(9));
    assert_eq!(table.get_digit_value(0x10A), Some(10));
    assert_eq!(table.get_digit_value(0x113), Some(19));
    assert_eq!(table.get_digit_value(0x114), None);
}

#[test]
fn dropping_a_pair_together_leaves_its_code_points_unassigned() {
    let all = generated_uniprops();
    let t = Tables(
        UnipropsBuilder::new()
            .filter(|r| r.code_point != 0x4E00 && r.code_point != 0x9FFF)
            .generate(unicode_data()),
    );
    assert_eq!(t.category(0x4E00), None);
    assert_eq!(t.category(0x5B57), None);
    assert_eq!(t.category(0x9FFF), None);
    // The code points of the records that were kept classify as before.
    for r in unicode_data() {
        if r.code_point != 0x4E00 && r.code_point != 0x9FFF {
            assert_eq!(t.category(r.code_point), all.category(r.code_point));
            assert_eq!(t.digit(r.code_point), all.digit(r.code_point));
        }
    }
    assert_eq!(t.category(0x3400), Some("Lo"));
    assert_eq!(t.category(0x4000), Some("Lo"));
    assert_eq!(t.category(0xAC00), Some("Lo"));
}

#[test]
fn ascending_records_compile_as_they_stand() {
    let records = unicode_data();
    let runs = uniprops::runs::build_runs(&records);
    let direct = uniprops::CategoryTable::build(&runs);
    let digits = uniprops::DigitTable::build(&records);
    let tables = UnipropsBuilder::new().generate(records);
    let table = tables.categories.expect("category table");
    assert_eq!(table.categories(), direct.categories());
    assert_eq!(table.chunk_index(), direct.chunk_index());
    assert_eq!(table.unique_blocks(), direct.unique_blocks());
    let ranges = tables.digits.expect("digit table");
    assert_eq!(ranges.starts(), digits.starts());
    assert_eq!(ranges.ends(), digits.ends());
    assert_eq!(ranges.bases(), digits.bases());
}

#[test]
fn runs_and_ranges_are_as_long_as_they_can_be() {
    let records = unicode_data();
    let runs = uniprops::runs::build_runs(&records);
    for pair in runs.windows(2) {
        assert!(
            pair[0].end + 1 != pair[1].start || pair[0].general_category != pair[1].general_category
        );
    }
    let ranges = uniprops::digits::build_digit_ranges(&records);
    for pair in ranges.windows(2) {
        let next = pair[0].base_val as u32 + (pair[1].start - pair[0].start);
        assert!(pair[0].end + 1 != pair[1].start || pair[1].base_val as u32 != next);
    }
    let table = uniprops::DigitTable::from_ranges(&ranges);
    for cp in 0..=0x10FFFFu32 {
        if let Some(value) = table.get_digit_value(cp) {
            assert!(value <= 9, "U+{:04X}", cp);
        }
    }
}
