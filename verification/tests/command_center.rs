use editorcito::command_center::reselect;
use editorcito::command_center::{
    center_entries, center_matches, command_entries, enter_choice, move_cursor, Action, CenterEntry,
    CenterPanel, CenterState, ClipItem, EntryKind,
    Target, TimedItem,
};

fn idle() -> CenterState {
    CenterState {
        undo_empty: true,
        pending_edit: false,
        redo_empty: true,
        ffmpeg_ready: true,
        importing: false,
        exporting: false,
        no_clips: true,
        selected: false,
        editable: false,
        clipboard: false,
        any_disabled: false,
        no_markers: true,
    }
}

fn entry(title: &str, detail: &str, kind: EntryKind) -> CenterEntry {
    let target = match kind {
        EntryKind::Command => Target::Command(Action::Save),
        EntryKind::Clip => Target::Clip(0),
        EntryKind::Marker => Target::Marker(0),
        EntryKind::Subtitle => Target::Subtitle(0),
        EntryKind::Time => Target::Time(0),
    };
    CenterEntry { title: title.to_string(), detail: detail.to_string(), kind, target, unavailable: None }
}

#[test]
fn commands_say_why_they_cannot_run() {
    let entries = command_entries(&idle());
    assert_eq!(entries.len(), 21);
    assert_eq!(entries[0].title, "Guardar proyecto");
    assert_eq!(entries[0].unavailable, None);
    assert_eq!(entries[1].action, Action::Undo);
    assert_eq!(entries[1].unavailable, Some("No hay cambios para deshacer"));
    assert_eq!(
        entries[4].unavailable,
        Some("Requiere medios, FFmpeg y ninguna exportacion en curso")
    );
    assert_eq!(entries[12].unavailable, Some("No hay marcadores"));
    assert_eq!(entries[20].action, Action::Shortcuts);
    assert_eq!(entries[20].detail, "Ayuda | Teclado");
    let busy = CenterState { pending_edit: true, no_clips: false, selected: true, ..idle() };
    let entries = command_entries(&busy);
    assert_eq!(entries[1].unavailable, None);
    assert_eq!(entries[4].unavailable, None);
    assert_eq!(entries[5].unavailable, None);
    assert_eq!(
        entries[6].unavailable,
        Some("Copia atributos y selecciona destinos editables")
    );
    let no_ffmpeg = CenterState { ffmpeg_ready: false, ..busy };
    assert_eq!(
        command_entries(&no_ffmpeg)[3].unavailable,
        Some("Requiere FFmpeg y ninguna importacion en curso")
    );
}

fn sample() -> Vec<CenterEntry> {
    vec![
        entry("Guardar proyecto", "Documento | Ctrl+S", EntryKind::Command),
        entry("Entrevista", "Clip | V1 | 00:00:01:00 | entrevista.mov", EntryKind::Clip),
        entry("Final", "Marcador | 00:00:05:00", EntryKind::Marker),
        entry("Hola entrevista", "Subtitulo | 00:00:02:00", EntryKind::Subtitle),
        entry("Plano", "Clip | V2 | 00:00:03:00 | entrevista_b.mov", EntryKind::Clip),
    ]
}

#[test]
fn a_scope_lists_only_its_kind() {
    let entries = sample();
    assert_eq!(center_matches("@", &entries), vec![(1, 1), (1, 4)]);
    assert_eq!(center_matches("  # fin ", &entries), vec![(1, 2)]);
    assert_eq!(center_matches("=hola", &entries), vec![(1, 3)]);
    assert_eq!(center_matches(">guardar", &entries), vec![(1, 0)]);
    assert_eq!(center_matches(">entrevista", &entries), vec![]);
}

#[test]
fn title_matches_come_before_detail_matches() {
    let entries = sample();
    assert_eq!(center_matches("entrevista", &entries), vec![(0, 1), (2, 3), (3, 4)]);
    assert_eq!(center_matches("@entrevista", &entries), vec![(0, 1), (3, 4)]);
}

#[test]
fn a_timecode_query_lists_every_entry_given() {
    let entries = vec![entry("Ir a 00:00:01:00", "Posicion del cabezal", EntryKind::Time)];
    assert_eq!(center_matches(":00:00:01:00", &entries), vec![(1, 0)]);
    assert_eq!(center_matches(":", &sample()).len(), 5);
    assert_eq!(center_matches("", &sample()).len(), 5);
}

#[test]
fn inverting_and_selecting_disabled_clips_choose_by_index() {
    let enabled = vec![true, false, true, false, true];
    assert_eq!(reselect(&vec![0, 2], &enabled, true), vec![1, 3, 4]);
    assert_eq!(reselect(&vec![0, 2], &enabled, false), vec![1, 3]);
    assert_eq!(reselect(&vec![], &vec![], true), Vec::<usize>::new());
    assert_eq!(reselect(&vec![0, 1, 2, 3, 4], &enabled, true), Vec::<usize>::new());
}

#[test]
fn the_centre_lists_commands_then_clips_markers_and_subtitles() {
    let clips = vec![
        ClipItem {
            name: "Entrevista".into(),
            has_video: true,
            track: 0,
            time: "00:00:01:00".into(),
            path: "/medios/entrevista.mov".into(),
        },
        ClipItem { name: "Ambiente".into(), has_video: false, track: 2, time: "00:00:03:00".into(), path: "a.wav".into() },
    ];
    let markers = vec![TimedItem { name: "Final".into(), time: "00:00:05:00".into(), time_bits: 5.0f64.to_bits() }];
    let subtitles =
        vec![TimedItem { name: "Hola\nmundo".into(), time: "00:00:02:00".into(), time_bits: 2.0f64.to_bits() }];
    let state = CenterState { undo_empty: true, pending_edit: true, ..idle() };
    let entries = center_entries(&state, &clips, &markers, &subtitles);
    assert_eq!(entries.len(), 25);
    assert_eq!(entries[0].title, "Guardar proyecto");
    assert_eq!(entries[1].target, Target::Command(Action::Undo));
    assert_eq!(entries[1].unavailable, None);
    assert_eq!(entries[20].title, "Consultar atajos");
    assert_eq!(entries[21].kind, EntryKind::Clip);
    assert_eq!(entries[21].target, Target::Clip(0));
    assert_eq!(entries[21].detail, "Clip | V1 | 00:00:01:00 | /medios/entrevista.mov");
    assert_eq!(entries[22].detail, "Clip | A3 | 00:00:03:00 | a.wav");
    assert_eq!(entries[22].target, Target::Clip(1));
    assert_eq!(entries[23].detail, "Marcador | 00:00:05:00");
    assert_eq!(entries[23].target, Target::Marker(5.0f64.to_bits()));
    assert_eq!(entries[24].title, "Hola mundo");
    assert_eq!(entries[24].detail, "Subtitulo | 00:00:02:00");
    assert_eq!(entries[24].target, Target::Subtitle(2.0f64.to_bits()));
    assert_eq!(center_matches("@", &entries), vec![(1, 21), (1, 22)]);
    let idle_entries = center_entries(&idle(), &vec![], &vec![], &vec![]);
    assert_eq!(idle_entries[1].unavailable, Some("No hay cambios para deshacer"));
}

#[test]
fn the_cursor_stays_on_the_matches_and_enter_runs_only_what_is_available() {
    assert_eq!(move_cursor(5, 3, false, false, false), 2);
    assert_eq!(move_cursor(5, 3, true, false, false), 0);
    assert_eq!(move_cursor(1, 3, false, true, false), 2);
    assert_eq!(move_cursor(2, 3, false, true, false), 2);
    assert_eq!(move_cursor(0, 3, false, false, true), 0);
    assert_eq!(move_cursor(4, 0, false, true, true), 0);
    let mut panel = CenterPanel { open: false, query: "vieja".into(), cursor: 3, focus: false };
    panel.open();
    assert!(panel.open && panel.focus && panel.query.is_empty() && panel.cursor == 0);
    let entries = center_entries(&idle(), &vec![], &vec![], &vec![]);
    // Entry 1 (Deshacer) is unavailable in the idle state; entry 0 is not.
    assert_eq!(enter_choice(&vec![(1, 1), (1, 0)], &entries, 0), None);
    assert_eq!(enter_choice(&vec![(1, 1), (1, 0)], &entries, 1), Some(Target::Command(Action::Save)));
    assert_eq!(enter_choice(&vec![], &entries, 0), None);
}
