use burst_bfs::text::{
    chars_of, decode, is_blank, parse_number, push_decimal, split_at_each, split_words,
};
use burst_bfs::timestamps::{
    level_key, opening, timestamp, trial_end_key, trial_level_key, trial_start_key, Phase,
};

fn number(word: &str) -> Option<usize> {
    parse_number(&chars_of(word))
}

#[test]
fn blanks_are_the_white_space_of_unicode() {
    for x in 0..=0x10FFFFu32 {
        if let Some(c) = char::from_u32(x) {
            assert_eq!(is_blank(c), c.is_whitespace(), "{x:x}");
        }
    }
}

#[test]
fn numbers_are_read_as_the_standard_library_reads_them() {
    let max = usize::MAX.to_string();
    let above = "18446744073709551616";
    let words = [
        "0", "7", "+7", "007", "", "+", "-1", "1x", "x1", "1 2", "++1", "1+", "-0", "\u{0664}",
        max.as_str(), above, "99999999999999999999", "184467440737095516150",
    ];
    for word in words {
        assert_eq!(number(word), word.parse::<usize>().ok(), "{word:?}");
    }
}

#[test]
fn numbers_are_written_and_read_back() {
    for n in [0u128, 9, 10, 99, 100, 12345678901234567890, u128::MAX] {
        let mut text = String::from("n=");
        push_decimal(&mut text, n);
        assert_eq!(text, format!("n={n}"));
    }
    let mut text = String::new();
    push_decimal(&mut text, 4096);
    assert_eq!(number(&text), Some(4096));
}

#[test]
fn text_is_cut_at_separators() {
    let line = chars_of(" ab\tc  d ");
    let words: Vec<String> = split_words(&line).into_iter().map(String::from_iter).collect();
    assert_eq!(words, vec!["ab", "c", "d"]);
    let parts: Vec<String> =
        split_at_each(&chars_of("a,,b,"), ',').into_iter().map(String::from_iter).collect();
    assert_eq!(parts, vec!["a", "", "b", ""]);
    assert_eq!(split_at_each(&[], ',').len(), 1);
}

#[test]
fn bytes_are_decoded_as_utf8() {
    assert_eq!(decode("aé\u{1F600}".as_bytes()), Some(vec!['a', 'é', '\u{1F600}']));
    assert_eq!(decode(&[0xC3]), None);
    assert_eq!(decode(&[]), Some(vec![]));
}

#[test]
fn moments_carry_their_time() {
    let stamp = timestamp(String::from("worker_end"), 1731000000123);
    assert_eq!(stamp.key, "worker_end");
    assert_eq!(stamp.value, "1731000000123");
    assert_eq!(stamp.clone(), stamp);
    let stamps = opening(String::from("5"), String::from("9"));
    assert_eq!(stamps.len(), 2);
    assert_eq!(stamps[0].key, "worker_start");
    assert_eq!(stamps[0].value, "5");
    assert_eq!(stamps[1].key, "graph_generated");
    assert_eq!(stamps[1].value, "9");
}

#[test]
fn keys_name_the_trial_the_level_and_the_phase() {
    assert_eq!(trial_start_key(0), "trial_0_start");
    assert_eq!(trial_end_key(63), "trial_63_end");
    let phases = [
        (Phase::Compute, "compute"),
        (Phase::AllToAll, "alltoall"),
        (Phase::Process, "process"),
        (Phase::Reduce, "reduce"),
        (Phase::Broadcast, "broadcast"),
        (Phase::Crossbeam, "crossbeam"),
        (Phase::Sync, "sync"),
        (Phase::End, "end"),
    ];
    for (phase, name) in phases {
        assert_eq!(trial_level_key(2, 10, phase), format!("trial_2_iter_10_{name}"));
        assert_eq!(level_key(7, phase), format!("iter_7_{name}"));
    }
}
