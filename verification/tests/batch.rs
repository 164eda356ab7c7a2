use editorcito::batch::InspectorMemory;
use editorcito::batch::{
    distinct_in_range, outcome, plan, supports, tally, ClipTraits, Field, Outcome, Report, Request,
    Target,
};

fn av() -> ClipTraits {
    ClipTraits { nested: false, title: false, has_video: true, has_audio: true, is_adjustment: false }
}

fn target(traits: ClipTraits, locked: bool) -> Target {
    Target { traits, locked }
}

#[test]
fn selection_is_deduplicated_sorted_and_bounded() {
    assert_eq!(distinct_in_range(&vec![3, 0, 0, 1, 99, 3], 4), vec![0, 1, 3]);
    assert!(distinct_in_range(&vec![5, 6], 4).is_empty());
    assert!(distinct_in_range(&vec![], 4).is_empty());
}

#[test]
fn batch_plans_each_distinct_clip_once() {
    let clips = vec![target(av(), false); 2];
    let p = plan(&vec![0, 0, 1, 99], &clips, &Request::Fields(vec![(Field::X, true)]));
    assert_eq!(
        p,
        vec![
            (0, Outcome::Write { accepted: vec![true], partial: false }),
            (1, Outcome::Write { accepted: vec![true], partial: false }),
        ]
    );
    assert_eq!(
        tally(&p, &vec![true, true]),
        Report { changed: 2, unchanged: 0, locked: 0, incompatible: 0, partial: 0 }
    );
    assert_eq!(
        tally(&p, &vec![false, false]),
        Report { changed: 0, unchanged: 2, locked: 0, incompatible: 0, partial: 0 }
    );
}

#[test]
fn locked_incompatible_and_partial_outcomes_are_reported() {
    let audio_only = ClipTraits { has_video: false, ..av() };
    let nested = ClipTraits { nested: true, ..av() };
    let clips = vec![target(av(), true), target(audio_only, false), target(nested, false)];
    let request = Request::Fields(vec![(Field::Gain, true), (Field::X, true)]);
    let p = plan(&vec![0, 1, 2], &clips, &request);
    assert_eq!(p[0], (0, Outcome::Locked));
    assert_eq!(p[1], (1, Outcome::Write { accepted: vec![true, false], partial: true }));
    assert_eq!(p[2], (2, Outcome::Incompatible));
    assert_eq!(
        tally(&p, &vec![false, true, false]),
        Report { changed: 1, unchanged: 0, locked: 1, incompatible: 1, partial: 1 }
    );
}

#[test]
fn generated_clips_take_only_colour_and_label() {
    let title = ClipTraits { title: true, ..av() };
    let adjustment = ClipTraits { is_adjustment: true, ..av() };
    let audio_only = ClipTraits { has_video: false, ..av() };
    let clips = vec![target(title, false), target(adjustment, false), target(audio_only, false)];
    let request = Request::Categories(av(), [true, true, false, false, false]);
    let p = plan(&vec![0, 1, 2], &clips, &request);
    assert_eq!(p[0].1, Outcome::Incompatible);
    assert_eq!(
        p[1].1,
        Outcome::Write { accepted: vec![false, true, false, false, false], partial: true }
    );
    assert_eq!(p[2].1, Outcome::Incompatible);
    let report = tally(&p, &vec![false, true, false]);
    assert_eq!((report.changed, report.partial, report.incompatible), (1, 1, 2));
    assert!(supports(&adjustment, 4));
    assert!(!supports(&title, 4));
}

#[test]
fn values_that_are_not_numbers_and_empty_requests_change_nothing() {
    assert_eq!(
        outcome(&av(), false, &Request::Fields(vec![(Field::Gain, false)])),
        Outcome::Incompatible
    );
    assert_eq!(
        outcome(&av(), false, &Request::Categories(av(), [false; 5])),
        Outcome::Write { accepted: vec![false; 5], partial: false }
    );
    assert_eq!(
        outcome(&av(), false, &Request::Fields(vec![])),
        Outcome::Write { accepted: vec![], partial: false }
    );
}

#[test]
fn a_source_without_the_category_never_erases_the_destination() {
    let source = ClipTraits { has_video: false, ..av() };
    assert_eq!(
        outcome(&av(), false, &Request::Categories(source, [false, true, false, false, false])),
        Outcome::Incompatible
    );
    let audio = Request::Categories(source, [false, false, true, false, false]);
    assert_eq!(
        outcome(&av(), false, &audio),
        Outcome::Write { accepted: vec![false, false, true, false, false], partial: false }
    );
    assert_eq!(outcome(&av(), true, &audio), Outcome::Locked);
}

#[test]
fn the_inspector_forgets_its_values_when_the_selection_or_document_changes() {
    let mut memory = InspectorMemory { selection: vec![1, 2], generation: 4, values: vec![Some(7); 15] };
    memory.refresh(&vec![1, 2], 4);
    assert_eq!(memory.values, vec![Some(7); 15]);
    memory.refresh(&vec![2], 4);
    assert_eq!(memory.selection, vec![2]);
    assert_eq!(memory.values, vec![None; 15]);
    memory.values[0] = Some(3);
    memory.refresh(&vec![2], 5);
    assert_eq!(memory.generation, 5);
    assert_eq!(memory.values, vec![None; 15]);
}
