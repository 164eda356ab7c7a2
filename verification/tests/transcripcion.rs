use editorcito::transcripcion::{filler_indices, is_annotation, normalized, pages_of};

fn texts(words: &[&str]) -> Vec<String> {
    words.iter().map(|w| w.to_string()).collect()
}

#[test]
fn fillers_include_two_word_o_sea() {
    let words = texts(&["Eh,", "hoy", "o", "sea,", "o", "no"]);
    assert_eq!(filler_indices(&words), vec![0, 2, 3]);
}

#[test]
fn fillers_are_found_in_any_case_and_punctuation() {
    let words = texts(&["EMM...", "este", "Mmm", "hola", "O", "SEA", "um?"]);
    assert_eq!(filler_indices(&words), vec![0, 1, 2, 4, 5, 6]);
    assert!(filler_indices(&texts(&[])).is_empty());
    assert_eq!(filler_indices(&texts(&["o"])), Vec::<usize>::new());
    assert_eq!(filler_indices(&texts(&["o", "o", "sea"])), vec![1, 2]);
}

#[test]
fn annotations_are_not_speech() {
    assert!(is_annotation("[Música]"));
    assert!(is_annotation("(risas)"));
    assert!(is_annotation("..."));
    assert!(is_annotation(""));
    assert!(!is_annotation("Hola"));
    assert!(!is_annotation("[Hola"));
}

#[test]
fn words_compare_without_punctuation_or_case() {
    assert_eq!(normalized("¡Hola, MUNDO!"), "hola mundo");
    assert_eq!(normalized("Sea,"), "sea");
    assert_eq!(normalized("Ñu-3"), "ñu3");
}

#[test]
fn pages_close_when_full_at_sentence_ends_and_after_pauses() {
    let lengths = vec![4, 5, 6, 3, 2, 7];
    let ends = vec![false, true, false, false, false, false];
    let gaps = vec![false, false, false, false, true, false];
    // Word 1 ends a sentence; a pause comes before word 4; every line fits
    // in ten characters.
    assert_eq!(pages_of(&lengths, &ends, &gaps, 10, 12), vec![(0, 2), (2, 4), (4, 6)]);
    // With nine, every second word overflows the line.
    assert_eq!(
        pages_of(&lengths, &ends, &gaps, 9, 12),
        vec![(0, 1), (1, 2), (2, 3), (3, 4), (4, 5), (5, 6)]
    );
    assert_eq!(pages_of(&lengths, &ends, &vec![false; 6], 42, 2), vec![(0, 2), (2, 4), (4, 6)]);
    assert_eq!(pages_of(&vec![], &vec![], &vec![], 42, 12), vec![]);
    assert_eq!(pages_of(&vec![3, 3], &vec![false, false], &vec![false, false], 42, 0), vec![(0, 1), (1, 2)]);
}
