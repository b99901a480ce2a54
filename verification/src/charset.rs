//! Canonical names for character-set labels.

use vstd::prelude::*;

use crate::strings::{lemma_upper_idempotent, str_eq, to_ascii_uppercase, upper};

verus! {

/// The canonical name of a character-set label: the label is upper-cased,
/// then a fixed table maps known aliases and misspellings to one name each;
/// any other label stays as upper-cased.
pub open spec fn normalized(label: Seq<char>) -> Seq<char> {
    let cs = upper(label);
    if cs == "UTF8"@ || cs == "UT-8"@ || cs == "UTR-8"@ || cs == "UFT-8"@ || cs
        == "UTF8-WITHOUT-BOM"@ || cs == "UTF8_GENERAL_CI"@ {
        "UTF-8"@
    } else if cs == "CP943"@ || cs == "CP943C"@ || cs == "SIFT_JIS"@ || cs == "SHIFT-JIS"@ {
        "SHIFT_JIS"@
    } else if cs == "EUC-KR"@ || cs == "MS949"@ || cs == "KSC5601"@ || cs == "WINDOWS-949"@ || cs
        == "KS_C_5601-1987"@ || cs == "KSC_5601"@ {
        "UHC"@
    } else if cs == "LATIN2_HUNGARIAN_CI"@ || cs == "LATIN2"@ {
        "LATIN-2"@
    } else if cs == "WIN1251"@ || cs == "WIN-1251"@ || cs == "WINDOWS-1251"@ {
        "CP1251"@
    } else if cs == "WINDOWS-1255"@ {
        "ISO-8859-8"@
    } else if cs == "WINDOWS-1257"@ {
        "ISO-8859-13"@
    } else if cs == "ANSI"@ || cs == "LATIN-1"@ || cs == "ISO"@ || cs == "RFC"@ || cs
        == "MACINTOSH"@ || cs == "8859-1"@ || cs == "8859-15"@ || cs == "ISO8859-1"@ || cs
        == "ISO8859-15"@ || cs == "ISO-8559-1"@ || cs == "ISO-8859-1"@ || cs == "ISO-8859-15"@ {
        "CP1252"@
    } else {
        cs
    }
}

/// Maps a character-set label to its canonical upper-case name.
pub fn normalize(character_set: &str) -> (r: String)
    ensures
        r@ == normalized(character_set@),
{
    let upper_cased = to_ascii_uppercase(character_set);
    let cs = upper_cased.as_str();
    if str_eq(cs, "UTF8") || str_eq(cs, "UT-8") || str_eq(cs, "UTR-8") || str_eq(cs, "UFT-8")
        || str_eq(cs, "UTF8-WITHOUT-BOM") || str_eq(cs, "UTF8_GENERAL_CI") {
        "UTF-8".to_owned()
    } else if str_eq(cs, "CP943") || str_eq(cs, "CP943C") || str_eq(cs, "SIFT_JIS") || str_eq(
        cs,
        "SHIFT-JIS",
    ) {
        "SHIFT_JIS".to_owned()
    } else if str_eq(cs, "EUC-KR") || str_eq(cs, "MS949") || str_eq(cs, "KSC5601") || str_eq(
        cs,
        "WINDOWS-949",
    ) || str_eq(cs, "KS_C_5601-1987") || str_eq(cs, "KSC_5601") {
        "UHC".to_owned()
    } else if str_eq(cs, "LATIN2_HUNGARIAN_CI") || str_eq(cs, "LATIN2") {
        "LATIN-2".to_owned()
    } else if str_eq(cs, "WIN1251") || str_eq(cs, "WIN-1251") || str_eq(cs, "WINDOWS-1251") {
        "CP1251".to_owned()
    } else if str_eq(cs, "WINDOWS-1255") {
        "ISO-8859-8".to_owned()
    } else if str_eq(cs, "WINDOWS-1257") {
        "ISO-8859-13".to_owned()
    } else if str_eq(cs, "ANSI") || str_eq(cs, "LATIN-1") || str_eq(cs, "ISO") || str_eq(cs, "RFC")
        || str_eq(cs, "MACINTOSH") || str_eq(cs, "8859-1") || str_eq(cs, "8859-15") || str_eq(
        cs,
        "ISO8859-1",
    ) || str_eq(cs, "ISO8859-15") || str_eq(cs, "ISO-8559-1") || str_eq(cs, "ISO-8859-1")
        || str_eq(cs, "ISO-8859-15") {
        "CP1252".to_owned()
    } else {
        upper_cased
    }
}

/// A canonical name is mapped to itself: it is in upper case, and it is none
/// of the aliases. Of each alias the proof looks at the length and, where a
/// canonical name has that length too, at one character in which the two
/// differ.
proof fn lemma_canonical_fixed(c: Seq<char>)
    requires
        c == "UTF-8"@ || c == "SHIFT_JIS"@ || c == "UHC"@ || c == "LATIN-2"@ || c == "CP1251"@ || c
            == "ISO-8859-8"@ || c == "ISO-8859-13"@ || c == "CP1252"@,
    ensures
        normalized(c) == c,
{
    reveal_strlit("UTF-8");
    assert("UTF-8"@ =~= seq!['U', 'T', 'F', '-', '8']);
    reveal_strlit("SHIFT_JIS");
    assert("SHIFT_JIS"@ =~= seq!['S', 'H', 'I', 'F', 'T', '_', 'J', 'I', 'S']);
    reveal_strlit("UHC");
    assert("UHC"@ =~= seq!['U', 'H', 'C']);
    reveal_strlit("LATIN-2");
    assert("LATIN-2"@ =~= seq!['L', 'A', 'T', 'I', 'N', '-', '2']);
    reveal_strlit("CP1251");
    assert("CP1251"@ =~= seq!['C', 'P', '1', '2', '5', '1']);
    reveal_strlit("ISO-8859-8");
    assert("ISO-8859-8"@ =~= seq!['I', 'S', 'O', '-', '8', '8', '5', '9', '-', '8']);
    reveal_strlit("ISO-8859-13");
    assert("ISO-8859-13"@ =~= seq!['I', 'S', 'O', '-', '8', '8', '5', '9', '-', '1', '3']);
    reveal_strlit("CP1252");
    assert("CP1252"@ =~= seq!['C', 'P', '1', '2', '5', '2']);
    reveal_strlit("UTF8");
    assert("UTF8"@.len() == 4);
    reveal_strlit("UT-8");
    assert("UT-8"@.len() == 4);
    reveal_strlit("UTR-8");
    assert("UTR-8"@.len() == 5 && "UTR-8"@[2] == 'R');
    reveal_strlit("UFT-8");
    assert("UFT-8"@.len() == 5 && "UFT-8"@[1] == 'F');
    reveal_strlit("UTF8-WITHOUT-BOM");
    assert("UTF8-WITHOUT-BOM"@.len() == 16);
    reveal_strlit("UTF8_GENERAL_CI");
    assert("UTF8_GENERAL_CI"@.len() == 15);
    reveal_strlit("CP943");
    assert("CP943"@.len() == 5 && "CP943"@[0] == 'C');
    reveal_strlit("CP943C");
    assert("CP943C"@.len() == 6 && "CP943C"@[2] == '9');
    reveal_strlit("SIFT_JIS");
    assert("SIFT_JIS"@.len() == 8);
    reveal_strlit("SHIFT-JIS");
    assert("SHIFT-JIS"@.len() == 9 && "SHIFT-JIS"@[5] == '-');
    reveal_strlit("EUC-KR");
    assert("EUC-KR"@.len() == 6 && "EUC-KR"@[0] == 'E');
    reveal_strlit("MS949");
    assert("MS949"@.len() == 5 && "MS949"@[0] == 'M');
    reveal_strlit("KSC5601");
    assert("KSC5601"@.len() == 7 && "KSC5601"@[0] == 'K');
    reveal_strlit("WINDOWS-949");
    assert("WINDOWS-949"@.len() == 11 && "WINDOWS-949"@[0] == 'W');
    reveal_strlit("KS_C_5601-1987");
    assert("KS_C_5601-1987"@.len() == 14);
    reveal_strlit("KSC_5601");
    assert("KSC_5601"@.len() == 8);
    reveal_strlit("LATIN2_HUNGARIAN_CI");
    assert("LATIN2_HUNGARIAN_CI"@.len() == 19);
    reveal_strlit("LATIN2");
    assert("LATIN2"@.len() == 6 && "LATIN2"@[0] == 'L');
    reveal_strlit("WIN1251");
    assert("WIN1251"@.len() == 7 && "WIN1251"@[0] == 'W');
    reveal_strlit("WIN-1251");
    assert("WIN-1251"@.len() == 8);
    reveal_strlit("WINDOWS-1251");
    assert("WINDOWS-1251"@.len() == 12);
    reveal_strlit("WINDOWS-1255");
    assert("WINDOWS-1255"@.len() == 12);
    reveal_strlit("WINDOWS-1257");
    assert("WINDOWS-1257"@.len() == 12);
    reveal_strlit("ANSI");
    assert("ANSI"@.len() == 4);
    reveal_strlit("LATIN-1");
    assert("LATIN-1"@.len() == 7 && "LATIN-1"@[6] == '1');
    reveal_strlit("ISO");
    assert("ISO"@.len() == 3 && "ISO"@[0] == 'I');
    reveal_strlit("RFC");
    assert("RFC"@.len() == 3 && "RFC"@[0] == 'R');
    reveal_strlit("MACINTOSH");
    assert("MACINTOSH"@.len() == 9 && "MACINTOSH"@[0] == 'M');
    reveal_strlit("8859-1");
    assert("8859-1"@.len() == 6 && "8859-1"@[0] == '8');
    reveal_strlit("8859-15");
    assert("8859-15"@.len() == 7 && "8859-15"@[0] == '8');
    reveal_strlit("ISO8859-1");
    assert("ISO8859-1"@.len() == 9 && "ISO8859-1"@[0] == 'I');
    reveal_strlit("ISO8859-15");
    assert("ISO8859-15"@.len() == 10 && "ISO8859-15"@[3] == '8');
    reveal_strlit("ISO-8559-1");
    assert("ISO-8559-1"@.len() == 10 && "ISO-8559-1"@[5] == '5');
    reveal_strlit("ISO-8859-1");
    assert("ISO-8859-1"@.len() == 10 && "ISO-8859-1"@[9] == '1');
    reveal_strlit("ISO-8859-15");
    assert("ISO-8859-15"@.len() == 11 && "ISO-8859-15"@[10] == '5');
    assert(upper(c) =~= c);
}

/// A canonical name is its own canonical name: normalising twice gives what
/// normalising once gives.
pub proof fn lemma_normalize_idempotent(label: Seq<char>)
    ensures
        normalized(normalized(label)) == normalized(label),
{
    let cs = upper(label);
    let out = normalized(label);
    lemma_upper_idempotent(label);
    if out != cs {
        lemma_canonical_fixed(out);
    }
}

} // verus!
