use morse_audio::morse::str_to_morse;
use morse_audio::play::{playback_plan, symbol_steps, AudioStep};
use morse_audio::wave::{
    chunk_count, chunk_len_at, chunk_schedule, pack_samples, zero_chunk, SAMPLE_RATE,
};
use morse_audio::morse::MorseSymbol;

#[test]
fn test_chunk_schedule_exact() {
    assert_eq!(chunk_schedule(0), Vec::<usize>::new());
    assert_eq!(chunk_schedule(1), vec![2]);
    assert_eq!(chunk_schedule(512), vec![1024]);
    assert_eq!(chunk_schedule(513), vec![1024, 2]);
    assert_eq!(chunk_schedule(1024), vec![1024, 1024]);
    assert_eq!(chunk_schedule(1100), vec![1024, 1024, 152]);
}

#[test]
fn test_chunk_schedule_byte_count_law() {
    // Total emitted bytes equal twice the rounded sample count, the short
    // final chunk included, for any duration.
    for d in [0.0f32, 0.001, 0.0116, 0.1, 0.25, 1.0] {
        let n = (SAMPLE_RATE as f32 * d).round() as usize;
        let schedule = chunk_schedule(n);
        let total: usize = schedule.iter().sum();
        assert_eq!(total, 2 * n);
        for (i, len) in schedule.iter().enumerate() {
            assert!(*len >= 1 && *len <= 1024);
            assert_eq!(len % 2, 0);
            if i + 1 < schedule.len() {
                assert_eq!(*len, 1024);
            }
        }
    }
}

#[test]
fn test_streamed_chunks_match_schedule() {
    // The constant-space form agrees with the materialized schedule.
    for n in [0usize, 1, 511, 512, 513, 1024, 1100, 4410] {
        let schedule = chunk_schedule(n);
        assert_eq!(chunk_count(n), schedule.len());
        for k in 0..schedule.len() {
            assert_eq!(chunk_len_at(n, k), schedule[k]);
        }
    }
}

#[test]
fn test_zero_chunk_is_silence() {
    let c = zero_chunk(152);
    assert_eq!(c.len(), 152);
    assert!(c.iter().all(|b| *b == 0));
    assert!(zero_chunk(0).is_empty());
}

#[test]
fn test_pack_samples_little_endian() {
    let bytes = pack_samples(&[0, 1, -1, 256, -32768, 32767]);
    assert_eq!(
        bytes,
        vec![0, 0, 1, 0, 255, 255, 0, 1, 0, 128, 255, 127]
    );
    assert!(pack_samples(&[]).is_empty());
}

#[test]
fn test_symbol_steps() {
    assert_eq!(
        symbol_steps(&MorseSymbol::Dit),
        vec![AudioStep::Tone { dits: 1 }, AudioStep::Silence { dits: 1 }]
    );
    assert_eq!(
        symbol_steps(&MorseSymbol::Dah),
        vec![AudioStep::Tone { dits: 3 }, AudioStep::Silence { dits: 1 }]
    );
    assert_eq!(
        symbol_steps(&MorseSymbol::LetterSpace),
        vec![AudioStep::Silence { dits: 3 }]
    );
    assert_eq!(
        symbol_steps(&MorseSymbol::WordSpace),
        vec![AudioStep::Silence { dits: 7 }]
    );
}

#[test]
fn test_single_dot_message_plan() {
    // One letter E: exactly one one-dit tone burst, then the one-dit gap.
    let plan = playback_plan(&str_to_morse("E"));
    assert_eq!(
        plan,
        vec![AudioStep::Tone { dits: 1 }, AudioStep::Silence { dits: 1 }]
    );
    // Each burst's byte stream obeys the same byte-count law.
    for d in [0.0f32, 0.003, 0.1] {
        let n = (SAMPLE_RATE as f32 * d).round() as usize;
        for step in &plan {
            let dits = match step {
                AudioStep::Tone { dits } => *dits,
                AudioStep::Silence { dits } => *dits,
            };
            assert_eq!(dits, 1);
            let total: usize = chunk_schedule(n).iter().sum();
            assert_eq!(total, 2 * n);
        }
    }
}

#[test]
fn test_fully_invalid_message_plays_nothing() {
    assert!(playback_plan(&str_to_morse("%^$")).is_empty());
    assert!(playback_plan(&str_to_morse("")).is_empty());
}

#[test]
fn test_plan_of_word() {
    // "et": dit, letter gap, dah, with the one-dit gap after each tone.
    let plan = playback_plan(&str_to_morse("et"));
    assert_eq!(
        plan,
        vec![
            AudioStep::Tone { dits: 1 },
            AudioStep::Silence { dits: 1 },
            AudioStep::Silence { dits: 3 },
            AudioStep::Tone { dits: 3 },
            AudioStep::Silence { dits: 1 },
        ]
    );
}
