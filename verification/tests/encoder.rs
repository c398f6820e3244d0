use morse_audio::morse::{
    char_to_morse, encode_with_warnings, str_to_morse, translate_morse, translate_morsesymbol,
    EncodeWarning, MorseSymbol, WarningKind,
};

#[test]
fn test_str_to_morse() {
    assert_eq!(
        translate_morse(&str_to_morse("Hello World")),
        ".... . .-.. .-.. --- / .-- --- .-. .-.. -.."
    );
    assert_eq!(
        translate_morse(&str_to_morse("Hello World!")),
        ".... . .-.. .-.. --- / .-- --- .-. .-.. -.."
    );
    assert_eq!(
        translate_morse(&str_to_morse("H%ell$o Wor^ld!")),
        ".... . .-.. .-.. --- / .-- --- .-. .-.. -.."
    );
    assert_eq!(translate_morse(&str_to_morse("É")), "..-..");
    assert_eq!(translate_morse(&str_to_morse("\'\"")), ".----. .-..-.");
}

#[test]
fn test_table_round_trip() {
    let cases: [(&str, &str); 51] = [
        ("a", ".-"),
        ("b", "-..."),
        ("c", "-.-."),
        ("d", "-.."),
        ("e", "."),
        ("é", "..-.."),
        ("f", "..-."),
        ("g", "--."),
        ("h", "...."),
        ("i", ".."),
        ("j", ".---"),
        ("k", "-.-"),
        ("l", ".-.."),
        ("m", "--"),
        ("n", "-."),
        ("o", "---"),
        ("p", ".--."),
        ("q", "--.-"),
        ("r", ".-."),
        ("s", "..."),
        ("t", "-"),
        ("u", "..-"),
        ("v", "...-"),
        ("w", ".--"),
        ("x", "-..-"),
        ("y", "-.--"),
        ("z", "--.."),
        ("1", ".----"),
        ("2", "..---"),
        ("3", "...--"),
        ("4", "....-"),
        ("5", "....."),
        ("6", "-...."),
        ("7", "--..."),
        ("8", "---.."),
        ("9", "----."),
        ("0", "-----"),
        (".", ".-.-.-"),
        (",", "--..--"),
        (":", "---..."),
        ("?", "..--.."),
        ("'", ".----."),
        ("-", "-....-"),
        ("/", "-..-."),
        ("(", "-.--."),
        (")", "-.--.-"),
        ("\"", ".-..-."),
        ("=", "-...-"),
        ("+", ".-.-."),
        ("×", "-..-"),
        ("@", ".--.-."),
    ];
    for (text, glyphs) in cases {
        assert_eq!(translate_morse(&str_to_morse(text)), glyphs);
    }
}

#[test]
fn test_case_insensitive() {
    let upper: [(&str, &str); 4] = [("A", ".-"), ("Z", "--.."), ("É", "..-.."), ("Q", "--.-")];
    for (text, glyphs) in upper {
        assert_eq!(translate_morse(&str_to_morse(text)), glyphs);
    }
    assert_eq!(
        translate_morse(&str_to_morse("SOS")),
        translate_morse(&str_to_morse("sos"))
    );
}

#[test]
fn test_empty_and_fully_invalid() {
    assert!(str_to_morse("").is_empty());
    assert!(str_to_morse("   ").is_empty());
    assert!(str_to_morse("%^$").is_empty());
    assert!(str_to_morse("% ^ $").is_empty());
}

#[test]
fn test_space_runs_and_trim() {
    assert_eq!(translate_morse(&str_to_morse("a  b")), ".- / -...");
    assert_eq!(translate_morse(&str_to_morse("  a b  ")), ".- / -...");
    assert_eq!(translate_morse(&str_to_morse("\t a \t")), ".-");
}

#[test]
fn test_word_emptied_by_filter_leaves_no_gap() {
    assert_eq!(translate_morse(&str_to_morse("ab %% cd")), ".- -... / -.-. -..");
    assert_eq!(translate_morse(&str_to_morse("%% ab")), ".- -...");
    assert_eq!(translate_morse(&str_to_morse("ab %%")), ".- -...");
}

#[test]
fn test_warning_positions_and_kinds() {
    let (code, warns) = encode_with_warnings("H%ell$o Wor^ld!");
    assert_eq!(translate_morse(&code), ".... . .-.. .-.. --- / .-- --- .-. .-.. -..");
    // Positions index into the trimmed lowercased message, spaces included:
    // "h%ell$o wor^ld!".
    assert_eq!(
        warns,
        vec![
            EncodeWarning { ch: '%', position: 1, kind: WarningKind::Percent },
            EncodeWarning { ch: '$', position: 5, kind: WarningKind::Unmapped },
            EncodeWarning { ch: '^', position: 11, kind: WarningKind::Unmapped },
            EncodeWarning { ch: '!', position: 14, kind: WarningKind::Unmapped },
        ]
    );
}

#[test]
fn test_per_mille_warning() {
    let (code, warns) = encode_with_warnings("‰");
    assert!(code.is_empty());
    assert_eq!(
        warns,
        vec![EncodeWarning { ch: '‰', position: 0, kind: WarningKind::PerMille }]
    );
}

#[test]
fn test_no_warnings_on_clean_input() {
    let (_, warns) = encode_with_warnings("Hello World");
    assert!(warns.is_empty());
}

#[test]
fn test_char_to_morse_lookup() {
    assert_eq!(
        char_to_morse('s'),
        Some(vec![MorseSymbol::Dit, MorseSymbol::Dit, MorseSymbol::Dit])
    );
    assert_eq!(char_to_morse('!'), None);
    assert_eq!(char_to_morse(' '), None);
}

#[test]
fn test_char_to_morse_case_insensitive() {
    for (upper, lower) in [('A', 'a'), ('S', 's'), ('Z', 'z'), ('É', 'é')] {
        let u = char_to_morse(upper);
        assert!(u.is_some());
        assert_eq!(u, char_to_morse(lower));
    }
    assert_eq!(char_to_morse('0'), char_to_morse('0'));
}

#[test]
fn test_translate_morsesymbol() {
    assert_eq!(translate_morsesymbol(&MorseSymbol::Dit), ".");
    assert_eq!(translate_morsesymbol(&MorseSymbol::Dah), "-");
    assert_eq!(translate_morsesymbol(&MorseSymbol::LetterSpace), " ");
    assert_eq!(translate_morsesymbol(&MorseSymbol::WordSpace), " / ");
}
