//! Text-to-Morse encoding: the character table, the word-splitting and
//! gap-joining rules, diagnostics for unmapped characters, and the glyph
//! rendering of a symbol sequence.

use vstd::prelude::*;

verus! {

/// One Morse primitive: a tone element (dit or dah) or a silent gap.
#[derive(Clone, Copy, Debug, PartialEq, Eq, Structural)]
pub enum MorseSymbol {
    Dit,
    Dah,
    LetterSpace,
    WordSpace,
}

/// Glyphs used to display one symbol: `.`, `-`, a single space between
/// letters, and ` / ` between words.
pub open spec fn symbol_glyphs(sym: MorseSymbol) -> Seq<char> {
    match sym {
        MorseSymbol::Dit => "."@,
        MorseSymbol::Dah => "-"@,
        MorseSymbol::LetterSpace => " "@,
        MorseSymbol::WordSpace => " / "@,
    }
}

/// Glyph rendering of a whole symbol sequence: the concatenation of each
/// symbol's glyphs, in order.
pub open spec fn code_glyphs(code: Seq<MorseSymbol>) -> Seq<char>
    decreases code.len(),
{
    if code.len() == 0 {
        Seq::empty()
    } else {
        code_glyphs(code.drop_last()) + symbol_glyphs(code.last())
    }
}

/// The Unicode whitespace characters, as trimmed from the ends of a message
/// before encoding.
pub open spec fn is_white(c: char) -> bool {
    let u = c as u32;
    u == 9 || u == 10 || u == 11 || u == 12 || u == 13 || u == 32 || u == 0x85 || u == 0xa0
        || u == 0x1680 || (0x2000 <= u && u <= 0x200a) || u == 0x2028 || u == 0x2029
        || u == 0x202f || u == 0x205f || u == 0x3000
}

/// The sequence without its leading whitespace.
pub open spec fn trim_front(s: Seq<char>) -> Seq<char>
    decreases s.len(),
{
    if s.len() > 0 && is_white(s.first()) {
        trim_front(s.drop_first())
    } else {
        s
    }
}

/// The sequence without its trailing whitespace.
pub open spec fn trim_back(s: Seq<char>) -> Seq<char>
    decreases s.len(),
{
    if s.len() > 0 && is_white(s.last()) {
        trim_back(s.drop_last())
    } else {
        s
    }
}

/// The sequence without leading and trailing whitespace.
pub open spec fn trim_spec(s: Seq<char>) -> Seq<char> {
    trim_back(trim_front(s))
}

fn white_char(c: char) -> (r: bool)
    ensures
        r == is_white(c),
{
    let u = c as u32;
    u == 9 || u == 10 || u == 11 || u == 12 || u == 13 || u == 32 || u == 0x85 || u == 0xa0
        || u == 0x1680 || (0x2000 <= u && u <= 0x200a) || u == 0x2028 || u == 0x2029
        || u == 0x202f || u == 0x205f || u == 0x3000
}

fn trim_chars(v: &Vec<char>) -> (r: Vec<char>)
    ensures
        r@ == trim_spec(v@),
{
    proof {
        assert(v@.skip(0) =~= v@);
    }
    let mut lo: usize = 0;
    while lo < v.len() && white_char(v[lo])
        invariant
            lo <= v@.len(),
            trim_front(v@) == trim_front(v@.skip(lo as int)),
        decreases v@.len() - lo,
    {
        proof {
            let s = v@.skip(lo as int);
            assert(s.first() == v@[lo as int]);
            assert(s.drop_first() =~= v@.skip(lo as int + 1));
        }
        lo = lo + 1;
    }
    proof {
        if lo == v@.len() {
            assert(v@.skip(lo as int) =~= Seq::<char>::empty());
        }
        assert(trim_front(v@) == v@.skip(lo as int));
    }
    let mut hi: usize = v.len();
    while hi > lo && white_char(v[hi - 1])
        invariant
            lo <= hi <= v@.len(),
            trim_front(v@) == v@.skip(lo as int),
            trim_back(v@.skip(lo as int)) == trim_back(v@.subrange(lo as int, hi as int)),
        decreases hi,
    {
        proof {
            let s = v@.subrange(lo as int, hi as int);
            assert(s.last() == v@[hi - 1 as int]);
            assert(s.drop_last() =~= v@.subrange(lo as int, hi as int - 1));
        }
        hi = hi - 1;
    }
    proof {
        assert(trim_back(v@.subrange(lo as int, hi as int)) == v@.subrange(lo as int, hi as int));
    }
    let mut r: Vec<char> = Vec::new();
    let mut j: usize = lo;
    while j < hi
        invariant
            lo <= j <= hi <= v@.len(),
            r@ == v@.subrange(lo as int, j as int),
        decreases hi - j,
    {
        r.push(v[j]);
        proof {
            assert(v@.subrange(lo as int, j + 1 as int) =~= v@.subrange(lo as int, j as int).push(
                v@[j as int],
            ));
        }
        j = j + 1;
    }
    r
}

/// Case folding for the table: an uppercase Latin letter and the uppercase
/// accented letter fold to their lowercase forms; every other character is
/// itself.
pub open spec fn fold_case(c: char) -> char {
    if c == 'A' {
        'a'
    } else if c == 'B' {
        'b'
    } else if c == 'C' {
        'c'
    } else if c == 'D' {
        'd'
    } else if c == 'E' {
        'e'
    } else if c == 'F' {
        'f'
    } else if c == 'G' {
        'g'
    } else if c == 'H' {
        'h'
    } else if c == 'I' {
        'i'
    } else if c == 'J' {
        'j'
    } else if c == 'K' {
        'k'
    } else if c == 'L' {
        'l'
    } else if c == 'M' {
        'm'
    } else if c == 'N' {
        'n'
    } else if c == 'O' {
        'o'
    } else if c == 'P' {
        'p'
    } else if c == 'Q' {
        'q'
    } else if c == 'R' {
        'r'
    } else if c == 'S' {
        's'
    } else if c == 'T' {
        't'
    } else if c == 'U' {
        'u'
    } else if c == 'V' {
        'v'
    } else if c == 'W' {
        'w'
    } else if c == 'X' {
        'x'
    } else if c == 'Y' {
        'y'
    } else if c == 'Z' {
        'z'
    } else if c == '\u{c9}' {
        '\u{e9}'
    } else {
        c
    }
}

fn fold_char(c: char) -> (r: char)
    ensures
        r == fold_case(c),
{
    match c {
        'A' => 'a',
        'B' => 'b',
        'C' => 'c',
        'D' => 'd',
        'E' => 'e',
        'F' => 'f',
        'G' => 'g',
        'H' => 'h',
        'I' => 'i',
        'J' => 'j',
        'K' => 'k',
        'L' => 'l',
        'M' => 'm',
        'N' => 'n',
        'O' => 'o',
        'P' => 'p',
        'Q' => 'q',
        'R' => 'r',
        'S' => 's',
        'T' => 't',
        'U' => 'u',
        'V' => 'v',
        'W' => 'w',
        'X' => 'x',
        'Y' => 'y',
        'Z' => 'z',
        '\u{c9}' => '\u{e9}',
        _ => c,
    }
}

/// The fixed table keyed by its lowercase characters: the dot/dash glyph
/// string assigned to each, `None` for an unsupported one.
pub open spec fn lower_glyphs(c: char) -> Option<Seq<char>> {
    if c == 'a' {
        Some(".-"@)
    } else if c == 'b' {
        Some("-..."@)
    } else if c == 'c' {
        Some("-.-."@)
    } else if c == 'd' {
        Some("-.."@)
    } else if c == 'e' {
        Some("."@)
    } else if c == '\u{e9}' {
        Some("..-.."@)
    } else if c == 'f' {
        Some("..-."@)
    } else if c == 'g' {
        Some("--."@)
    } else if c == 'h' {
        Some("...."@)
    } else if c == 'i' {
        Some(".."@)
    } else if c == 'j' {
        Some(".---"@)
    } else if c == 'k' {
        Some("-.-"@)
    } else if c == 'l' {
        Some(".-.."@)
    } else if c == 'm' {
        Some("--"@)
    } else if c == 'n' {
        Some("-."@)
    } else if c == 'o' {
        Some("---"@)
    } else if c == 'p' {
        Some(".--."@)
    } else if c == 'q' {
        Some("--.-"@)
    } else if c == 'r' {
        Some(".-."@)
    } else if c == 's' {
        Some("..."@)
    } else if c == 't' {
        Some("-"@)
    } else if c == 'u' {
        Some("..-"@)
    } else if c == 'v' {
        Some("...-"@)
    } else if c == 'w' {
        Some(".--"@)
    } else if c == 'x' {
        Some("-..-"@)
    } else if c == 'y' {
        Some("-.--"@)
    } else if c == 'z' {
        Some("--.."@)
    } else if c == '1' {
        Some(".----"@)
    } else if c == '2' {
        Some("..---"@)
    } else if c == '3' {
        Some("...--"@)
    } else if c == '4' {
        Some("....-"@)
    } else if c == '5' {
        Some("....."@)
    } else if c == '6' {
        Some("-...."@)
    } else if c == '7' {
        Some("--..."@)
    } else if c == '8' {
        Some("---.."@)
    } else if c == '9' {
        Some("----."@)
    } else if c == '0' {
        Some("-----"@)
    } else if c == '.' {
        Some(".-.-.-"@)
    } else if c == ',' {
        Some("--..--"@)
    } else if c == ':' {
        Some("---..."@)
    } else if c == '?' {
        Some("..--.."@)
    } else if c == '\'' {
        Some(".----."@)
    } else if c == '-' {
        Some("-....-"@)
    } else if c == '/' {
        Some("-..-."@)
    } else if c == '(' {
        Some("-.--."@)
    } else if c == ')' {
        Some("-.--.-"@)
    } else if c == '"' {
        Some(".-..-."@)
    } else if c == '=' {
        Some("-...-"@)
    } else if c == '+' {
        Some(".-.-."@)
    } else if c == '\u{d7}' {
        Some("-..-"@)
    } else if c == '@' {
        Some(".--.-."@)
    } else {
        None
    }
}

/// The character table as a caller sees it: the lookup happens after case
/// folding, so the uppercase form of a supported letter maps like its
/// lowercase form.
pub open spec fn char_glyphs(c: char) -> Option<Seq<char>> {
    lower_glyphs(fold_case(c))
}

/// The symbol sequence a dot/dash glyph string stands for: `.` is a dit and
/// `-` is a dah.
pub open spec fn glyphs_code(g: Seq<char>) -> Seq<MorseSymbol>
    decreases g.len(),
{
    if g.len() == 0 {
        Seq::empty()
    } else {
        glyphs_code(g.drop_last()).push(
            if g.last() == '.' {
                MorseSymbol::Dit
            } else {
                MorseSymbol::Dah
            },
        )
    }
}

/// The code assigned to each supported (lowercase) character, as symbols.
pub open spec fn char_code(c: char) -> Option<Seq<MorseSymbol>> {
    match char_glyphs(c) {
        None => None,
        Some(g) => Some(glyphs_code(g)),
    }
}

fn lower_glyph_str(c: char) -> (r: Option<&'static str>)
    ensures
        r is Some <==> lower_glyphs(c) is Some,
        r is Some ==> r.unwrap()@ == lower_glyphs(c).unwrap(),
{
    match c {
        'a' => Some(".-"),
        'b' => Some("-..."),
        'c' => Some("-.-."),
        'd' => Some("-.."),
        'e' => Some("."),
        '\u{e9}' => Some("..-.."),
        'f' => Some("..-."),
        'g' => Some("--."),
        'h' => Some("...."),
        'i' => Some(".."),
        'j' => Some(".---"),
        'k' => Some("-.-"),
        'l' => Some(".-.."),
        'm' => Some("--"),
        'n' => Some("-."),
        'o' => Some("---"),
        'p' => Some(".--."),
        'q' => Some("--.-"),
        'r' => Some(".-."),
        's' => Some("..."),
        't' => Some("-"),
        'u' => Some("..-"),
        'v' => Some("...-"),
        'w' => Some(".--"),
        'x' => Some("-..-"),
        'y' => Some("-.--"),
        'z' => Some("--.."),
        '1' => Some(".----"),
        '2' => Some("..---"),
        '3' => Some("...--"),
        '4' => Some("....-"),
        '5' => Some("....."),
        '6' => Some("-...."),
        '7' => Some("--..."),
        '8' => Some("---.."),
        '9' => Some("----."),
        '0' => Some("-----"),
        '.' => Some(".-.-.-"),
        ',' => Some("--..--"),
        ':' => Some("---..."),
        '?' => Some("..--.."),
        '\'' => Some(".----."),
        '-' => Some("-....-"),
        '/' => Some("-..-."),
        '(' => Some("-.--."),
        ')' => Some("-.--.-"),
        '"' => Some(".-..-."),
        '=' => Some("-...-"),
        '+' => Some(".-.-."),
        '\u{d7}' => Some("-..-"),
        '@' => Some(".--.-."),
        _ => None,
    }
}

fn char_glyph_str(c: char) -> (r: Option<&'static str>)
    ensures
        r is Some <==> char_glyphs(c) is Some,
        r is Some ==> r.unwrap()@ == char_glyphs(c).unwrap(),
{
    lower_glyph_str(fold_char(c))
}

fn glyphs_to_code(s: &str) -> (r: Vec<MorseSymbol>)
    ensures
        r@ == glyphs_code(s@),
{
    let n = s.unicode_len();
    let mut r: Vec<MorseSymbol> = Vec::new();
    let mut i: usize = 0;
    while i < n
        invariant
            n == s@.len(),
            i <= n,
            r@ == glyphs_code(s@.take(i as int)),
        decreases n - i,
    {
        let c = s.get_char(i);
        if c == '.' {
            r.push(MorseSymbol::Dit);
        } else {
            r.push(MorseSymbol::Dah);
        }
        proof {
            assert(s@.take(i + 1 as int).drop_last() =~= s@.take(i as int));
        }
        i = i + 1;
    }
    proof {
        assert(s@.take(n as int) =~= s@);
    }
    r
}

/// Code lookup for one character, case-insensitive: the table is consulted
/// after case folding, and `None` comes back only when the character has no
/// entry.
pub fn char_to_morse(c: char) -> (r: Option<Vec<MorseSymbol>>)
    ensures
        r is Some <==> char_code(c) is Some,
        r is Some ==> r.unwrap()@ == char_code(c).unwrap(),
{
    match char_glyph_str(c) {
        None => None,
        Some(s) => Some(glyphs_to_code(s)),
    }
}

/// The words of a message: splitting on every single space, so a run of
/// spaces yields empty words in between. The result always holds at least
/// one (possibly empty) word.
pub open spec fn space_split(s: Seq<char>) -> Seq<Seq<char>>
    decreases s.len(),
{
    if s.len() == 0 {
        seq![Seq::empty()]
    } else {
        let pre = space_split(s.drop_last());
        if s.last() == ' ' {
            pre.push(Seq::empty())
        } else {
            pre.update(pre.len() - 1, pre.last().push(s.last()))
        }
    }
}

/// The code of one word: each mapped character's code, joined with a single
/// letter gap; unmapped characters are dropped without leaving a gap.
pub open spec fn word_code(w: Seq<char>) -> Seq<MorseSymbol>
    decreases w.len(),
{
    if w.len() == 0 {
        Seq::empty()
    } else {
        let pre = word_code(w.drop_last());
        match char_code(w.last()) {
            None => pre,
            Some(code) => if pre.len() == 0 {
                code
            } else {
                pre + seq![MorseSymbol::LetterSpace] + code
            },
        }
    }
}

/// The code of a word list: each word's code, joined with a single word gap;
/// a word whose code is empty contributes nothing, not a stray gap.
pub open spec fn words_code(ws: Seq<Seq<char>>) -> Seq<MorseSymbol>
    decreases ws.len(),
{
    if ws.len() == 0 {
        Seq::empty()
    } else {
        let pre = words_code(ws.drop_last());
        let code = word_code(ws.last());
        if code.len() == 0 {
            pre
        } else if pre.len() == 0 {
            code
        } else {
            pre + seq![MorseSymbol::WordSpace] + code
        }
    }
}

/// The full encoding of an already-lowercased message: trim it, split it
/// into words on spaces, and join the word codes.
pub open spec fn encode_spec(s: Seq<char>) -> Seq<MorseSymbol> {
    words_code(space_split(trim_spec(s)))
}

/// Why a character was dropped: a percent sign and a per-mille sign get a
/// distinguished hint, every other unmapped character a plain notice.
#[derive(Clone, Copy, Debug, PartialEq, Eq, Structural)]
pub enum WarningKind {
    Percent,
    PerMille,
    Unmapped,
}

/// A dropped character: the character itself, its 0-based position in the
/// trimmed lowercased message, and the kind of notice it earns.
#[derive(Clone, Copy, Debug, PartialEq, Eq, Structural)]
pub struct EncodeWarning {
    pub ch: char,
    pub position: usize,
    pub kind: WarningKind,
}

pub open spec fn warn_kind(c: char) -> WarningKind {
    if c == '%' {
        WarningKind::Percent
    } else if c == '\u{2030}' {
        WarningKind::PerMille
    } else {
        WarningKind::Unmapped
    }
}

/// The warnings an already-trimmed, lowercased message earns: one per
/// unmapped non-space character, in input order, each carrying the
/// character's index in that message (spaces counted like any character).
pub open spec fn warnings_spec(s: Seq<char>) -> Seq<EncodeWarning>
    decreases s.len(),
{
    if s.len() == 0 {
        Seq::empty()
    } else {
        let pre = warnings_spec(s.drop_last());
        let c = s.last();
        if c == ' ' || char_code(c) is Some {
            pre
        } else {
            pre.push(
                EncodeWarning { ch: c, position: (s.len() - 1) as usize, kind: warn_kind(c) },
            )
        }
    }
}

/// The warnings of a lowercased message, positions counted after trimming.
pub open spec fn encode_warnings_spec(s: Seq<char>) -> Seq<EncodeWarning> {
    warnings_spec(trim_spec(s))
}

fn warn_kind_of(c: char) -> (r: WarningKind)
    ensures
        r == warn_kind(c),
{
    if c == '%' {
        WarningKind::Percent
    } else if c == '\u{2030}' {
        WarningKind::PerMille
    } else {
        WarningKind::Unmapped
    }
}

fn encode_trimmed(t: &Vec<char>) -> (r: (Vec<MorseSymbol>, Vec<EncodeWarning>))
    ensures
        r.0@ == words_code(space_split(t@)),
        r.1@ == warnings_spec(t@),
{
    let ghost tv = t@;
    let mut prev: Vec<MorseSymbol> = Vec::new();
    let mut cur: Vec<MorseSymbol> = Vec::new();
    let mut warns: Vec<EncodeWarning> = Vec::new();
    let ghost mut front: Seq<Seq<char>> = Seq::empty();
    let ghost mut curw: Seq<char> = Seq::empty();
    let mut i: usize = 0;
    proof {
        assert(tv.take(0) =~= Seq::<char>::empty());
    }
    while i < t.len()
        invariant
            t@ == tv,
            i <= tv.len(),
            space_split(tv.take(i as int)) == front.push(curw),
            prev@ == words_code(front),
            cur@ == word_code(curw),
            warns@ == warnings_spec(tv.take(i as int)),
        decreases tv.len() - i,
    {
        let c = t[i];
        proof {
            assert(tv.take(i + 1 as int).drop_last() =~= tv.take(i as int));
            assert(tv.take(i + 1 as int).last() == tv[i as int]);
        }
        if c == ' ' {
            proof {
                assert(front.push(curw).drop_last() =~= front);
            }
            if cur.len() > 0 {
                if prev.len() > 0 {
                    prev.push(MorseSymbol::WordSpace);
                }
                prev.append(&mut cur);
            }
            proof {
                front = front.push(curw);
                curw = Seq::empty();
                assert(space_split(tv.take(i + 1 as int)) == front.push(curw));
            }
        } else {
            proof {
                assert(front.push(curw).last() == curw);
                assert(front.push(curw).update(front.len() as int, curw.push(c)) =~= front.push(
                    curw.push(c),
                ));
                assert(curw.push(c).drop_last() =~= curw);
            }
            match char_to_morse(c) {
                None => {
                    warns.push(
                        EncodeWarning { ch: c, position: i, kind: warn_kind_of(c) },
                    );
                }
                Some(code) => {
                    let mut code = code;
                    if cur.len() > 0 {
                        cur.push(MorseSymbol::LetterSpace);
                    }
                    cur.append(&mut code);
                }
            }
            proof {
                curw = curw.push(c);
            }
        }
        i = i + 1;
    }
    proof {
        assert(tv.take(tv.len() as int) =~= tv);
        assert(front.push(curw).drop_last() =~= front);
    }
    if cur.len() > 0 {
        if prev.len() > 0 {
            prev.push(MorseSymbol::WordSpace);
        }
        prev.append(&mut cur);
    }
    (prev, warns)
}

/// The lowercase image of a character sequence, as `str::to_lowercase`
/// defines it.
pub uninterp spec fn lower_of(s: Seq<char>) -> Seq<char>;

/// Relies on str::to_lowercase: the result depends on the characters alone,
/// and an empty string stays empty. The character collection merely converts
/// the resulting string to its characters.
#[verifier::external_body]
fn lower_chars(s: &str) -> (r: Vec<char>)
    ensures
        r@ == lower_of(s@),
        s@.len() == 0 ==> r@.len() == 0,
{
    s.to_lowercase().chars().collect()
}

/// Encode a message: lowercase and trim it, split it into words, drop
/// unmapped characters, and join the surviving codes with letter and word
/// gaps. Returns the symbol sequence together with one warning per dropped
/// character.
pub fn encode_with_warnings(s: &str) -> (r: (Vec<MorseSymbol>, Vec<EncodeWarning>))
    ensures
        r.0@ == encode_spec(lower_of(s@)),
        r.1@ == encode_warnings_spec(lower_of(s@)),
        s@.len() == 0 ==> r.0@.len() == 0 && r.1@.len() == 0,
{
    let low = lower_chars(s);
    let trimmed = trim_chars(&low);
    let r = encode_trimmed(&trimmed);
    proof {
        if s@.len() == 0 {
            let t = lower_of(s@);
            assert(t =~= Seq::<char>::empty());
            lemma_unmapped_empty(t);
            assert(trim_front(t) == t);
            assert(trim_back(t) == t);
        }
    }
    r
}

/// Encode a message to its symbol sequence, discarding the warnings.
pub fn str_to_morse(s: &str) -> (r: Vec<MorseSymbol>)
    ensures
        r@ == encode_spec(lower_of(s@)),
        s@.len() == 0 ==> r@.len() == 0,
{
    let (code, _) = encode_with_warnings(s);
    code
}

fn symbol_str(sym: &MorseSymbol) -> (r: &'static str)
    ensures
        r@ == symbol_glyphs(*sym),
{
    match sym {
        MorseSymbol::Dit => ".",
        MorseSymbol::Dah => "-",
        MorseSymbol::LetterSpace => " ",
        MorseSymbol::WordSpace => " / ",
    }
}

/// Display form of one Morse symbol.
pub fn translate_morsesymbol(sym: &MorseSymbol) -> (r: String)
    ensures
        r@ == symbol_glyphs(*sym),
{
    String::from_str(symbol_str(sym))
}

/// Display form of a whole symbol sequence.
pub fn translate_morse(code: &[MorseSymbol]) -> (r: String)
    ensures
        r@ == code_glyphs(code@),
{
    let mut out = String::new();
    let mut i: usize = 0;
    while i < code.len()
        invariant
            i <= code@.len(),
            out@ == code_glyphs(code@.take(i as int)),
        decreases code@.len() - i,
    {
        out.append(symbol_str(&code[i]));
        proof {
            let pre = code@.take(i as int);
            let post = code@.take(i + 1 as int);
            assert(post.drop_last() =~= pre);
            assert(post.last() == code@[i as int]);
        }
        i = i + 1;
    }
    proof {
        assert(code@.take(code@.len() as int) =~= code@);
    }
    out
}

/// A glyph string made of dots and dashes only.
pub open spec fn dot_dash(g: Seq<char>) -> bool {
    forall|i: int| 0 <= i < g.len() ==> g[i] == '.' || g[i] == '-'
}

/// A glyph string and its symbol sequence have the same length.
pub proof fn lemma_glyphs_code_len(g: Seq<char>)
    ensures
        glyphs_code(g).len() == g.len(),
    decreases g.len(),
{
    if g.len() > 0 {
        lemma_glyphs_code_len(g.drop_last());
    }
}

/// Rendering the symbols of a dot/dash glyph string gives the string back.
pub proof fn lemma_glyphs_round_trip(g: Seq<char>)
    requires
        dot_dash(g),
    ensures
        code_glyphs(glyphs_code(g)) =~= g,
    decreases g.len(),
{
    reveal_strlit(".");
    reveal_strlit("-");
    if g.len() > 0 {
        lemma_glyphs_round_trip(g.drop_last());
        let sym = if g.last() == '.' {
            MorseSymbol::Dit
        } else {
            MorseSymbol::Dah
        };
        let pre = glyphs_code(g.drop_last());
        assert(glyphs_code(g) == pre.push(sym));
        assert(pre.push(sym).drop_last() =~= pre);
        assert(pre.push(sym).last() == sym);
        assert(code_glyphs(pre.push(sym)) == code_glyphs(pre) + symbol_glyphs(sym));
        assert(symbol_glyphs(sym) =~= seq![g.last()]);
        assert(code_glyphs(glyphs_code(g)) =~= g.drop_last() + seq![g.last()]);
        assert(g.drop_last() + seq![g.last()] =~= g);
    }
}

/// Every table entry is a non-empty dot/dash string, and no supported
/// character is whitespace.
#[verifier::rlimit(60)]
pub proof fn lemma_table_entry(c: char)
    requires
        char_glyphs(c) is Some,
    ensures
        char_glyphs(c).unwrap().len() > 0,
        dot_dash(char_glyphs(c).unwrap()),
        !is_white(c),
{
    reveal_strlit(".-");
    reveal_strlit("-...");
    reveal_strlit("-.-.");
    reveal_strlit("-..");
    reveal_strlit(".");
    reveal_strlit("..-..");
    reveal_strlit("..-.");
    reveal_strlit("--.");
    reveal_strlit("....");
    reveal_strlit("..");
    reveal_strlit(".---");
    reveal_strlit("-.-");
    reveal_strlit(".-..");
    reveal_strlit("--");
    reveal_strlit("-.");
    reveal_strlit("---");
    reveal_strlit(".--.");
    reveal_strlit("--.-");
    reveal_strlit(".-.");
    reveal_strlit("...");
    reveal_strlit("-");
    reveal_strlit("..-");
    reveal_strlit("...-");
    reveal_strlit(".--");
    reveal_strlit("-..-");
    reveal_strlit("-.--");
    reveal_strlit("--..");
    reveal_strlit(".----");
    reveal_strlit("..---");
    reveal_strlit("...--");
    reveal_strlit("....-");
    reveal_strlit(".....");
    reveal_strlit("-....");
    reveal_strlit("--...");
    reveal_strlit("---..");
    reveal_strlit("----.");
    reveal_strlit("-----");
    reveal_strlit(".-.-.-");
    reveal_strlit("--..--");
    reveal_strlit("---...");
    reveal_strlit("..--..");
    reveal_strlit(".----.");
    reveal_strlit("-....-");
    reveal_strlit("-..-.");
    reveal_strlit("-.--.");
    reveal_strlit("-.--.-");
    reveal_strlit(".-..-.");
    reveal_strlit("-...-");
    reveal_strlit(".-.-.");
    reveal_strlit(".--.-.");
}

/// The split of any sequence holds at least one word.
pub proof fn lemma_space_split_nonempty(s: Seq<char>)
    ensures
        space_split(s).len() >= 1,
    decreases s.len(),
{
    if s.len() > 0 {
        lemma_space_split_nonempty(s.drop_last());
    }
}

/// A message of one supported character encodes to exactly that character's
/// code: no gap is added anywhere around it.
pub proof fn lemma_single_char(c: char)
    requires
        char_code(c) is Some,
    ensures
        encode_spec(seq![c]) == char_code(c).unwrap(),
{
    reveal_with_fuel(word_code, 2);
    reveal_with_fuel(words_code, 2);
    reveal_with_fuel(space_split, 2);
    lemma_table_entry(c);
    lemma_glyphs_code_len(char_glyphs(c).unwrap());
    let t = seq![c];
    assert(t.first() == c);
    assert(trim_front(t) == t);
    assert(t.last() == c);
    assert(trim_back(t) == t);
    assert(trim_spec(t) == t);
    assert(t.drop_last() =~= Seq::<char>::empty());
    let base = space_split(Seq::<char>::empty());
    assert(base == seq![Seq::<char>::empty()]);
    assert(space_split(t) == base.update(base.len() - 1, base.last().push(c)));
    assert(space_split(t) =~~= seq![seq![c]]);
    let w = seq![c];
    assert(w.drop_last() =~= Seq::<char>::empty());
    assert(w.last() == c);
    assert(word_code(w) == char_code(c).unwrap());
    let ws = seq![w];
    assert(ws.drop_last() =~= Seq::<Seq<char>>::empty());
    assert(ws.last() == w);
    assert(word_code(w).len() > 0);
    assert(words_code(ws) == word_code(w));
}

/// Round trip of the character table: encoding a message that is one
/// supported character and rendering the result as glyphs gives exactly the
/// table's dot/dash string for that character.
pub proof fn lemma_char_round_trip(c: char)
    requires
        char_code(c) is Some,
    ensures
        code_glyphs(encode_spec(seq![c])) == char_glyphs(c).unwrap(),
{
    lemma_single_char(c);
    lemma_table_entry(c);
    lemma_glyphs_round_trip(char_glyphs(c).unwrap());
}

/// Trimming keeps a fully-unmapped message fully unmapped.
proof fn lemma_trim_front_unmapped(s: Seq<char>)
    requires
        forall|i: int| 0 <= i < s.len() ==> char_code(#[trigger] s[i]) is None,
    ensures
        forall|i: int|
            0 <= i < trim_front(s).len() ==> char_code(#[trigger] trim_front(s)[i]) is None,
    decreases s.len(),
{
    if s.len() > 0 && is_white(s.first()) {
        assert(forall|i: int|
            0 <= i < s.drop_first().len() ==> char_code(#[trigger] s.drop_first()[i]) is None);
        lemma_trim_front_unmapped(s.drop_first());
    }
}

proof fn lemma_trim_back_unmapped(s: Seq<char>)
    requires
        forall|i: int| 0 <= i < s.len() ==> char_code(#[trigger] s[i]) is None,
    ensures
        forall|i: int|
            0 <= i < trim_back(s).len() ==> char_code(#[trigger] trim_back(s)[i]) is None,
    decreases s.len(),
{
    if s.len() > 0 && is_white(s.last()) {
        assert(forall|i: int|
            0 <= i < s.drop_last().len() ==> char_code(#[trigger] s.drop_last()[i]) is None);
        lemma_trim_back_unmapped(s.drop_last());
    }
}

/// In the split of a fully-unmapped message every word's code is empty, and
/// so is the joined code.
proof fn lemma_split_unmapped_empty(s: Seq<char>)
    requires
        forall|i: int| 0 <= i < s.len() ==> char_code(#[trigger] s[i]) is None,
    ensures
        forall|j: int|
            0 <= j < space_split(s).len() ==> word_code(#[trigger] space_split(s)[j]).len() == 0,
        words_code(space_split(s)).len() == 0,
    decreases s.len(),
{
    reveal_with_fuel(word_code, 2);
    reveal_with_fuel(words_code, 2);
    lemma_space_split_nonempty(s);
    if s.len() == 0 {
        let ws = space_split(s);
        assert(ws == seq![Seq::<char>::empty()]);
        assert(word_code(ws[0]).len() == 0);
        assert(ws.drop_last() =~= Seq::<Seq<char>>::empty());
        assert(words_code(ws) == word_code(ws.last()));
    } else {
        assert(forall|i: int|
            0 <= i < s.drop_last().len() ==> char_code(#[trigger] s.drop_last()[i]) is None);
        lemma_split_unmapped_empty(s.drop_last());
        lemma_space_split_nonempty(s.drop_last());
        let pre = space_split(s.drop_last());
        let c = s.last();
        assert(char_code(c) is None);
        if c == ' ' {
            let ws = pre.push(Seq::<char>::empty());
            assert(space_split(s) == ws);
            assert(forall|j: int| 0 <= j < pre.len() ==> ws[j] == pre[j]);
            assert(word_code(ws[ws.len() - 1]).len() == 0);
            assert(ws.drop_last() =~= pre);
            assert(ws.last() =~= Seq::<char>::empty());
            assert(words_code(ws) == words_code(pre));
        } else {
            let w = pre.last();
            let ws = pre.update(pre.len() - 1, w.push(c));
            assert(space_split(s) == ws);
            assert(word_code(w).len() == 0);
            assert(w.push(c).drop_last() =~= w);
            assert(w.push(c).last() == c);
            assert(word_code(w.push(c)).len() == 0);
            assert(forall|j: int| 0 <= j < pre.len() - 1 ==> ws[j] == pre[j]);
            assert(ws[ws.len() - 1] == w.push(c));
            assert(ws.drop_last() =~= pre.drop_last());
            assert(ws.last() == w.push(c));
            assert(words_code(ws) == words_code(pre.drop_last()));
            assert(words_code(pre) == words_code(pre.drop_last()) || words_code(pre)
                == word_code(pre.last()));
        }
    }
}

/// A silent gap symbol, as opposed to a tone element.
pub open spec fn is_gap(m: MorseSymbol) -> bool {
    m == MorseSymbol::LetterSpace || m == MorseSymbol::WordSpace
}

/// The invariant of an encoded sequence: it neither starts nor ends with a
/// gap, and no two gaps stand next to each other.
pub open spec fn well_formed(code: Seq<MorseSymbol>) -> bool {
    &&& code.len() > 0 ==> !is_gap(code.first()) && !is_gap(code.last())
    &&& forall|i: int|
        0 <= i < code.len() - 1 ==> !(#[trigger] is_gap(code[i]) && is_gap(code[i + 1]))
}

/// A character's own code holds tone elements only, no gap.
pub proof fn lemma_glyphs_code_no_gaps(g: Seq<char>)
    ensures
        forall|i: int| 0 <= i < glyphs_code(g).len() ==> !is_gap(#[trigger] glyphs_code(g)[i]),
    decreases g.len(),
{
    if g.len() > 0 {
        lemma_glyphs_code_no_gaps(g.drop_last());
        let pre = glyphs_code(g.drop_last());
        let sym = if g.last() == '.' {
            MorseSymbol::Dit
        } else {
            MorseSymbol::Dah
        };
        assert(glyphs_code(g) == pre.push(sym));
        assert forall|i: int| 0 <= i < glyphs_code(g).len() implies !is_gap(
            #[trigger] glyphs_code(g)[i],
        ) by {
            if i < pre.len() {
                assert(glyphs_code(g)[i] == pre[i]);
                assert(!is_gap(pre[i]));
            } else {
                assert(glyphs_code(g)[i] == sym);
            }
        }
    }
}

/// Joining two well-formed codes around a single gap keeps the whole well
/// formed.
proof fn lemma_join_wf(pre: Seq<MorseSymbol>, sep: MorseSymbol, code: Seq<MorseSymbol>)
    requires
        well_formed(pre),
        pre.len() > 0,
        well_formed(code),
        code.len() > 0,
        is_gap(sep),
    ensures
        well_formed(pre + seq![sep] + code),
{
    let r = pre + seq![sep] + code;
    assert(r.first() == pre.first());
    assert(r.last() == code.last());
    assert forall|i: int| 0 <= i < r.len() - 1 implies !(#[trigger] is_gap(r[i]) && is_gap(
        r[i + 1],
    )) by {
        if i < pre.len() - 1 {
            assert(r[i] == pre[i] && r[i + 1] == pre[i + 1]);
        } else if i == pre.len() - 1 {
            assert(r[i] == pre.last());
        } else if i == pre.len() {
            assert(r[i + 1] == code.first());
        } else {
            assert(r[i] == code[i - pre.len() - 1] && r[i + 1] == code[i - pre.len()]);
        }
    }
}

/// The code of one word is well formed.
pub proof fn lemma_word_code_wf(w: Seq<char>)
    ensures
        well_formed(word_code(w)),
    decreases w.len(),
{
    if w.len() > 0 {
        lemma_word_code_wf(w.drop_last());
        let pre = word_code(w.drop_last());
        match char_code(w.last()) {
            None => {},
            Some(code) => {
                lemma_table_entry(w.last());
                lemma_glyphs_code_len(char_glyphs(w.last()).unwrap());
                lemma_glyphs_code_no_gaps(char_glyphs(w.last()).unwrap());
                assert(well_formed(code));
                if pre.len() > 0 {
                    lemma_join_wf(pre, MorseSymbol::LetterSpace, code);
                }
            },
        }
    }
}

/// The joined code of a word list is well formed.
pub proof fn lemma_words_code_wf(ws: Seq<Seq<char>>)
    ensures
        well_formed(words_code(ws)),
    decreases ws.len(),
{
    if ws.len() > 0 {
        lemma_words_code_wf(ws.drop_last());
        lemma_word_code_wf(ws.last());
        let pre = words_code(ws.drop_last());
        let code = word_code(ws.last());
        if code.len() > 0 && pre.len() > 0 {
            lemma_join_wf(pre, MorseSymbol::WordSpace, code);
        }
    }
}

/// Every encoded message satisfies the sequence invariant: no leading, no
/// trailing, and no doubled gap.
pub proof fn lemma_encode_well_formed(s: Seq<char>)
    ensures
        well_formed(encode_spec(s)),
{
    lemma_words_code_wf(space_split(trim_spec(s)));
}

/// An empty or fully-unmapped message encodes to the empty sequence.
pub proof fn lemma_unmapped_empty(s: Seq<char>)
    requires
        forall|i: int| 0 <= i < s.len() ==> char_code(#[trigger] s[i]) is None,
    ensures
        encode_spec(s).len() == 0,
{
    lemma_trim_front_unmapped(s);
    lemma_trim_back_unmapped(trim_front(s));
    lemma_split_unmapped_empty(trim_spec(s));
}

} // verus!
