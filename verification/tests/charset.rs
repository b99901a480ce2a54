use prouste::charset::normalize;

#[test]
fn test_normalize() {
    assert_eq!(normalize("dummy"), "DUMMY");
    assert_eq!(normalize("UTF8"), "UTF-8");
    assert_eq!(normalize("utf-8"), "UTF-8");
    assert_eq!(normalize("MACINTOSH"), "CP1252");
    assert_eq!(normalize("WINDOWS-1255"), "ISO-8859-8");
}

const TABLE: [(&str, &str); 35] = [
    ("UTF8", "UTF-8"),
    ("UT-8", "UTF-8"),
    ("UTR-8", "UTF-8"),
    ("UFT-8", "UTF-8"),
    ("UTF8-WITHOUT-BOM", "UTF-8"),
    ("UTF8_GENERAL_CI", "UTF-8"),
    ("CP943", "SHIFT_JIS"),
    ("CP943C", "SHIFT_JIS"),
    ("SIFT_JIS", "SHIFT_JIS"),
    ("SHIFT-JIS", "SHIFT_JIS"),
    ("EUC-KR", "UHC"),
    ("MS949", "UHC"),
    ("KSC5601", "UHC"),
    ("WINDOWS-949", "UHC"),
    ("KS_C_5601-1987", "UHC"),
    ("KSC_5601", "UHC"),
    ("LATIN2_HUNGARIAN_CI", "LATIN-2"),
    ("LATIN2", "LATIN-2"),
    ("WIN1251", "CP1251"),
    ("WIN-1251", "CP1251"),
    ("WINDOWS-1251", "CP1251"),
    ("WINDOWS-1255", "ISO-8859-8"),
    ("WINDOWS-1257", "ISO-8859-13"),
    ("ANSI", "CP1252"),
    ("LATIN-1", "CP1252"),
    ("ISO", "CP1252"),
    ("RFC", "CP1252"),
    ("MACINTOSH", "CP1252"),
    ("8859-1", "CP1252"),
    ("8859-15", "CP1252"),
    ("ISO8859-1", "CP1252"),
    ("ISO8859-15", "CP1252"),
    ("ISO-8559-1", "CP1252"),
    ("ISO-8859-1", "CP1252"),
    ("ISO-8859-15", "CP1252"),
];

#[test]
fn every_alias_has_its_canonical_name() {
    for (alias, canonical) in TABLE {
        assert_eq!(normalize(alias), canonical);
        assert_eq!(normalize(&alias.to_lowercase()), canonical);
    }
}

#[test]
fn other_labels_are_upper_cased() {
    assert_eq!(normalize(""), "");
    assert_eq!(normalize("koi8-r"), "KOI8-R");
    assert_eq!(normalize("Windows-1252"), "WINDOWS-1252");
    assert_eq!(normalize("utf-16le"), "UTF-16LE");
    assert_eq!(normalize(" utf8"), " UTF8");
    assert_eq!(normalize("\u{e9}t\u{e9}"), "\u{e9}T\u{e9}");
}

#[test]
fn normalizing_twice_is_normalizing_once() {
    let mut labels: Vec<String> = vec!["", "dummy", "koi8-r", "Big5", "x-y_z"].iter().map(|s| s.to_string()).collect();
    for (alias, canonical) in TABLE {
        labels.push(alias.to_string());
        labels.push(canonical.to_string());
        labels.push(alias.to_lowercase());
    }
    for label in labels {
        let once = normalize(&label);
        assert_eq!(normalize(&once), once);
    }
}
