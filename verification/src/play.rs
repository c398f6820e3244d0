//! The playback sequencer's decisions: which audio bursts each Morse symbol
//! stands for, measured in dit units. A dit and a dah are tones of one and
//! three dits, each followed by the fixed one-dit gap that separates tone
//! elements; a letter gap and a word gap are silences of three and seven
//! dits, already complete in themselves. This yields the classic
//! dot:dash:gap:letter:word timing of 1:3:1:3:7.

use vstd::prelude::*;
use crate::morse::MorseSymbol;
use crate::morse::char_code;
use crate::morse::char_glyphs;
use crate::morse::glyphs_code;
use crate::morse::encode_spec;
use crate::morse::lemma_single_char;
use crate::morse::lemma_unmapped_empty;

verus! {

/// One burst of the audio stream: a tone or a silence, with its duration in
/// dit units.
#[derive(Clone, Copy, Debug, PartialEq, Eq, Structural)]
pub enum AudioStep {
    Tone { dits: u8 },
    Silence { dits: u8 },
}

/// The bursts one symbol stands for.
pub open spec fn symbol_steps_spec(sym: MorseSymbol) -> Seq<AudioStep> {
    match sym {
        MorseSymbol::Dit => seq![
            AudioStep::Tone { dits: 1 },
            AudioStep::Silence { dits: 1 },
        ],
        MorseSymbol::Dah => seq![
            AudioStep::Tone { dits: 3 },
            AudioStep::Silence { dits: 1 },
        ],
        MorseSymbol::LetterSpace => seq![AudioStep::Silence { dits: 3 }],
        MorseSymbol::WordSpace => seq![AudioStep::Silence { dits: 7 }],
    }
}

/// The bursts of a whole symbol sequence, in order, with nothing between
/// them: no gap and no overlap beyond what the steps themselves carry.
pub open spec fn plan_spec(code: Seq<MorseSymbol>) -> Seq<AudioStep>
    decreases code.len(),
{
    if code.len() == 0 {
        Seq::empty()
    } else {
        plan_spec(code.drop_last()) + symbol_steps_spec(code.last())
    }
}

/// The bursts to play for one symbol.
pub fn symbol_steps(sym: &MorseSymbol) -> (r: Vec<AudioStep>)
    ensures
        r@ == symbol_steps_spec(*sym),
{
    let mut r: Vec<AudioStep> = Vec::new();
    match sym {
        MorseSymbol::Dit => {
            r.push(AudioStep::Tone { dits: 1 });
            r.push(AudioStep::Silence { dits: 1 });
        },
        MorseSymbol::Dah => {
            r.push(AudioStep::Tone { dits: 3 });
            r.push(AudioStep::Silence { dits: 1 });
        },
        MorseSymbol::LetterSpace => {
            r.push(AudioStep::Silence { dits: 3 });
        },
        MorseSymbol::WordSpace => {
            r.push(AudioStep::Silence { dits: 7 });
        },
    }
    proof {
        assert(r@ =~= symbol_steps_spec(*sym));
    }
    r
}

/// The bursts to play for a whole symbol sequence.
pub fn playback_plan(code: &[MorseSymbol]) -> (r: Vec<AudioStep>)
    ensures
        r@ == plan_spec(code@),
{
    let mut r: Vec<AudioStep> = Vec::new();
    let mut i: usize = 0;
    proof {
        assert(code@.take(0) =~= Seq::<MorseSymbol>::empty());
    }
    while i < code.len()
        invariant
            i <= code@.len(),
            r@ == plan_spec(code@.take(i as int)),
        decreases code@.len() - i,
    {
        let mut steps = symbol_steps(&code[i]);
        r.append(&mut steps);
        proof {
            assert(code@.take(i + 1 as int).drop_last() =~= code@.take(i as int));
            assert(code@.take(i + 1 as int).last() == code@[i as int]);
        }
        i = i + 1;
    }
    proof {
        assert(code@.take(code@.len() as int) =~= code@);
    }
    r
}

/// Encoding the single letter E gives one dit, whose playback is exactly
/// one one-dit tone burst followed by the fixed one-dit silence: each burst
/// is scheduled once, whatever the dit duration.
pub proof fn lemma_single_dot_plan()
    ensures
        plan_spec(encode_spec(seq!['e'])) =~= seq![
            AudioStep::Tone { dits: 1 },
            AudioStep::Silence { dits: 1 },
        ],
{
    reveal_strlit(".");
    reveal_with_fuel(glyphs_code, 2);
    let g = "."@;
    assert(g.len() == 1 && g.last() == '.');
    assert(char_glyphs('e') == Some(g));
    lemma_single_char('e');
    assert(g.drop_last() =~= Seq::<char>::empty());
    assert(glyphs_code(g) =~= seq![MorseSymbol::Dit]);
    assert(encode_spec(seq!['e']) == seq![MorseSymbol::Dit]);
    let code = seq![MorseSymbol::Dit];
    assert(code.drop_last() =~= Seq::<MorseSymbol>::empty());
    reveal_with_fuel(plan_spec, 2);
    assert(plan_spec(code) == plan_spec(code.drop_last()) + symbol_steps_spec(MorseSymbol::Dit));
}

/// A message with no supported character plays nothing: its plan schedules
/// no tone and no silence burst at all.
pub proof fn lemma_unmapped_plays_nothing(s: Seq<char>)
    requires
        forall|i: int| 0 <= i < s.len() ==> char_code(#[trigger] s[i]) is None,
    ensures
        plan_spec(encode_spec(s)).len() == 0,
{
    lemma_unmapped_empty(s);
    assert(encode_spec(s) =~= Seq::<MorseSymbol>::empty());
}

} // verus!
