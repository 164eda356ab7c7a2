//! The command centre: the fixed commands, each with the reason it cannot
//! run in the current state, and the search that filters entries by a
//! leading scope character (`>` commands, `@` clips, `#` markers,
//! `=` subtitles, `:` a timecode) and ranks them by score.
use vstd::prelude::*;
use crate::media_browser::{insert_sorted, lemma_insert_sorted_at, lemma_stable_sorted, sorted_by, stable_sorted, total_preorder};
use crate::navigation::{search_score, search_score_of};
use crate::text::{chars_to_string, push_str, slice_of, to_chars, trim, trimmed};

verus! {

/// A command of the centre that does not depend on a clip, marker or time.
#[derive(Clone, Copy, Debug, PartialEq, Eq, Structural)]
pub enum Action {
    Save,
    Undo,
    Redo,
    Import,
    Export,
    CopyAttributes,
    PasteAttributes,
    Fade,
    FitSelection,
    RangeSelection,
    InvertSelection,
    SelectDisabled,
    PreviousMarker,
    NextMarker,
    PreviousGap,
    NextGap,
    Mixer,
    Subtitles,
    Markers,
    Clips,
    Shortcuts,
}

/// What the availability of the commands depends on.
#[derive(Clone, Copy, Debug, PartialEq, Eq, Structural)]
pub struct CenterState {
    /// Nothing to undo on the stack.
    pub undo_empty: bool,
    /// An edit is being made that undo would close.
    pub pending_edit: bool,
    /// Nothing to redo.
    pub redo_empty: bool,
    /// FFmpeg was found.
    pub ffmpeg_ready: bool,
    /// An import is running.
    pub importing: bool,
    /// An export is running.
    pub exporting: bool,
    /// The edit holds no clip.
    pub no_clips: bool,
    /// At least one clip is selected.
    pub selected: bool,
    /// A selected clip lies on an unlocked track.
    pub editable: bool,
    /// Attributes were copied.
    pub clipboard: bool,
    /// Some clip is disabled.
    pub any_disabled: bool,
    /// The edit holds no marker.
    pub no_markers: bool,
}

/// A fixed command: its title, its details, what it does and, when it
/// cannot run, why.
#[derive(Clone, Copy, Debug)]
pub struct CommandEntry {
    pub title: &'static str,
    pub detail: &'static str,
    pub action: Action,
    pub unavailable: Option<&'static str>,
}

/// `Some(reason)` when `blocked`.
pub open spec fn unless(blocked: bool, reason: Seq<char>) -> Option<Seq<char>> {
    if blocked {
        Some(reason)
    } else {
        None
    }
}

/// The fixed commands in the order the centre lists them, for the state `s`.
pub open spec fn commands_of(s: CenterState) -> Seq<(Seq<char>, Seq<char>, Action, Option<Seq<char>>)> {
    seq![
        ("Guardar proyecto"@, "Documento | Ctrl+S"@, Action::Save, None),
        ("Deshacer"@, "Edicion | Ctrl+Z"@, Action::Undo,
            unless(s.undo_empty && !s.pending_edit, "No hay cambios para deshacer"@)),
        ("Rehacer"@, "Edicion | Ctrl+Y"@, Action::Redo,
            unless(s.redo_empty, "No hay cambios para rehacer"@)),
        ("Importar medios"@, "Documento | Ctrl+I"@, Action::Import,
            unless(!s.ffmpeg_ready || s.importing, "Requiere FFmpeg y ninguna importacion en curso"@)),
        ("Exportar montaje"@, "Entrega | Ctrl+Mayus+E"@, Action::Export,
            unless(!s.ffmpeg_ready || s.exporting || s.no_clips,
                "Requiere medios, FFmpeg y ninguna exportacion en curso"@)),
        ("Copiar atributos"@, "Seleccion | Ctrl+Alt+C"@, Action::CopyAttributes,
            unless(!s.selected, "Selecciona un clip"@)),
        ("Pegar atributos selectivos"@, "Seleccion | Ctrl+Alt+V"@, Action::PasteAttributes,
            unless(!s.editable || !s.clipboard, "Copia atributos y selecciona destinos editables"@)),
        ("Fundidos rapidos en seleccion"@, "Seleccion | Ambos bordes, hasta 1 s"@, Action::Fade,
            unless(!s.editable, "Selecciona clips en pistas desbloqueadas"@)),
        ("Encuadrar seleccion"@, "Vista | Ajusta zoom y desplazamiento"@, Action::FitSelection,
            unless(!s.selected, "Selecciona al menos un clip"@)),
        ("Rango de trabajo desde seleccion"@,
            "Rango | Entrada y salida sin activar exportacion parcial"@, Action::RangeSelection,
            unless(!s.selected, "Selecciona al menos un clip"@)),
        ("Invertir seleccion"@, "Seleccion | Intercambia seleccionados y no seleccionados"@,
            Action::InvertSelection, unless(s.no_clips, "El montaje esta vacio"@)),
        ("Seleccionar clips desactivados"@, "Revision | Material excluido del montaje"@,
            Action::SelectDisabled, unless(!s.any_disabled, "No hay clips desactivados"@)),
        ("Marcador anterior"@, "Navegacion | Marcador previo"@, Action::PreviousMarker,
            unless(s.no_markers, "No hay marcadores"@)),
        ("Marcador siguiente"@, "Navegacion | Proximo marcador"@, Action::NextMarker,
            unless(s.no_markers, "No hay marcadores"@)),
        ("Hueco anterior en pista"@, "Revision | Pista del clip principal; cuenta clips activos"@,
            Action::PreviousGap, unless(!s.selected, "Selecciona un clip de la pista a revisar"@)),
        ("Hueco siguiente en pista"@, "Revision | Pista del clip principal; cuenta clips activos"@,
            Action::NextGap, unless(!s.selected, "Selecciona un clip de la pista a revisar"@)),
        ("Abrir mezclador"@, "Panel | Audio"@, Action::Mixer, None),
        ("Abrir subtitulos"@, "Panel | Texto y sincronizacion"@, Action::Subtitles, None),
        ("Abrir marcadores"@, "Panel | Notas de montaje"@, Action::Markers, None),
        ("Abrir planos"@, "Panel | Lista de clips"@, Action::Clips, None),
        ("Consultar atajos"@, "Ayuda | Teclado"@, Action::Shortcuts, None),
    ]
}

pub open spec fn reason_view(r: Option<&'static str>) -> Option<Seq<char>> {
    match r {
        Some(t) => Some(t@),
        None => None,
    }
}

pub open spec fn command_view(e: CommandEntry) -> (Seq<char>, Seq<char>, Action, Option<Seq<char>>) {
    (e.title@, e.detail@, e.action, reason_view(e.unavailable))
}

pub open spec fn command_views(v: Seq<CommandEntry>) -> Seq<(Seq<char>, Seq<char>, Action, Option<Seq<char>>)> {
    v.map_values(|e: CommandEntry| command_view(e))
}

fn entry(
    title: &'static str,
    detail: &'static str,
    action: Action,
    blocked: bool,
    reason: &'static str,
) -> (e: CommandEntry)
    ensures
        command_view(e) == (title@, detail@, action, unless(blocked, reason@)),
{
    CommandEntry { title, detail, action, unavailable: if blocked { Some(reason) } else { None } }
}

/// The fixed commands of the centre, each with the reason it cannot run in
/// the state `s`, if any.
pub fn command_entries(s: &CenterState) -> (r: Vec<CommandEntry>)
    ensures
        command_views(r@) == commands_of(*s),
{
    let mut r: Vec<CommandEntry> = Vec::new();
    r.push(entry("Guardar proyecto", "Documento | Ctrl+S", Action::Save, false, ""));
    r.push(entry("Deshacer", "Edicion | Ctrl+Z", Action::Undo, s.undo_empty && !s.pending_edit,
        "No hay cambios para deshacer"));
    r.push(entry("Rehacer", "Edicion | Ctrl+Y", Action::Redo, s.redo_empty,
        "No hay cambios para rehacer"));
    r.push(entry("Importar medios", "Documento | Ctrl+I", Action::Import,
        !s.ffmpeg_ready || s.importing, "Requiere FFmpeg y ninguna importacion en curso"));
    r.push(entry("Exportar montaje", "Entrega | Ctrl+Mayus+E", Action::Export,
        !s.ffmpeg_ready || s.exporting || s.no_clips,
        "Requiere medios, FFmpeg y ninguna exportacion en curso"));
    r.push(entry("Copiar atributos", "Seleccion | Ctrl+Alt+C", Action::CopyAttributes,
        !s.selected, "Selecciona un clip"));
    r.push(entry("Pegar atributos selectivos", "Seleccion | Ctrl+Alt+V", Action::PasteAttributes,
        !s.editable || !s.clipboard, "Copia atributos y selecciona destinos editables"));
    r.push(entry("Fundidos rapidos en seleccion", "Seleccion | Ambos bordes, hasta 1 s",
        Action::Fade, !s.editable, "Selecciona clips en pistas desbloqueadas"));
    r.push(entry("Encuadrar seleccion", "Vista | Ajusta zoom y desplazamiento",
        Action::FitSelection, !s.selected, "Selecciona al menos un clip"));
    r.push(entry("Rango de trabajo desde seleccion",
        "Rango | Entrada y salida sin activar exportacion parcial", Action::RangeSelection,
        !s.selected, "Selecciona al menos un clip"));
    r.push(entry("Invertir seleccion", "Seleccion | Intercambia seleccionados y no seleccionados",
        Action::InvertSelection, s.no_clips, "El montaje esta vacio"));
    r.push(entry("Seleccionar clips desactivados", "Revision | Material excluido del montaje",
        Action::SelectDisabled, !s.any_disabled, "No hay clips desactivados"));
    r.push(entry("Marcador anterior", "Navegacion | Marcador previo", Action::PreviousMarker,
        s.no_markers, "No hay marcadores"));
    r.push(entry("Marcador siguiente", "Navegacion | Proximo marcador", Action::NextMarker,
        s.no_markers, "No hay marcadores"));
    r.push(entry("Hueco anterior en pista", "Revision | Pista del clip principal; cuenta clips activos",
        Action::PreviousGap, !s.selected, "Selecciona un clip de la pista a revisar"));
    r.push(entry("Hueco siguiente en pista", "Revision | Pista del clip principal; cuenta clips activos",
        Action::NextGap, !s.selected, "Selecciona un clip de la pista a revisar"));
    r.push(entry("Abrir mezclador", "Panel | Audio", Action::Mixer, false, ""));
    r.push(entry("Abrir subtitulos", "Panel | Texto y sincronizacion", Action::Subtitles, false, ""));
    r.push(entry("Abrir marcadores", "Panel | Notas de montaje", Action::Markers, false, ""));
    r.push(entry("Abrir planos", "Panel | Lista de clips", Action::Clips, false, ""));
    r.push(entry("Consultar atajos", "Ayuda | Teclado", Action::Shortcuts, false, ""));
    assert(command_views(r@) =~= commands_of(*s));
    r
}

/// What an entry of the centre stands for.
#[derive(Clone, Copy, Debug, PartialEq, Eq, Structural)]
pub enum EntryKind {
    Command,
    Clip,
    Marker,
    Subtitle,
    Time,
}

/// What choosing an entry does: run a command, select clip `i` and go to
/// its start, or go to the time of a marker, of a subtitle or to a
/// position (times held by the bits of their doubles).
#[derive(Clone, Copy, Debug, PartialEq, Eq, Structural)]
pub enum Target {
    Command(Action),
    Clip(usize),
    Marker(u64),
    Subtitle(u64),
    Time(u64),
}

/// An entry the centre can list: a command, a clip, a marker, a subtitle or
/// a position to go to, with what choosing it does and, for a command that
/// cannot run, why.
#[derive(Clone, Debug)]
pub struct CenterEntry {
    pub title: String,
    pub detail: String,
    pub kind: EntryKind,
    pub target: Target,
    pub unavailable: Option<&'static str>,
}

/// A clip as the centre lists it: its name, whether it holds video, its
/// track (counted from zero), its start as a timecode, and the path of its
/// medium.
#[derive(Clone, Debug)]
pub struct ClipItem {
    pub name: String,
    pub has_video: bool,
    pub track: usize,
    pub time: String,
    pub path: String,
}

/// A marker or a subtitle as the centre lists it: its name (or text), its
/// time as a timecode, and the bits of its time.
#[derive(Clone, Debug)]
pub struct TimedItem {
    pub name: String,
    pub time: String,
    pub time_bits: u64,
}

/// An entry as values: title, detail, kind, target and the reason it is
/// unavailable.
pub open spec fn center_view(e: CenterEntry) -> (Seq<char>, Seq<char>, EntryKind, Target, Option<Seq<char>>) {
    (e.title@, e.detail@, e.kind, e.target, reason_view(e.unavailable))
}

pub open spec fn center_views(v: Seq<CenterEntry>) -> Seq<(Seq<char>, Seq<char>, EntryKind, Target, Option<Seq<char>>)> {
    v.map_values(|e: CenterEntry| center_view(e))
}

/// The entry of a fixed command.
pub open spec fn command_item(c: (Seq<char>, Seq<char>, Action, Option<Seq<char>>)) -> (
    Seq<char>,
    Seq<char>,
    EntryKind,
    Target,
    Option<Seq<char>>,
) {
    (c.0, c.1, EntryKind::Command, Target::Command(c.2), c.3)
}

/// The entry of clip `i`: its name, then `Clip | `, `V` or `A` and its
/// track counted from one, its start and its path.
pub open spec fn clip_item(i: int, c: ClipItem) -> (Seq<char>, Seq<char>, EntryKind, Target, Option<Seq<char>>) {
    (
        c.name@,
        "Clip | "@ + (if c.has_video {
            seq!['V']
        } else {
            seq!['A']
        }) + crate::text::decimal(c.track as nat + 1) + " | "@ + c.time@ + " | "@ + c.path@,
        EntryKind::Clip,
        Target::Clip(i as usize),
        None,
    )
}

/// The entry of a marker: its name, then `Marcador | ` and its time.
pub open spec fn marker_item(m: TimedItem) -> (Seq<char>, Seq<char>, EntryKind, Target, Option<Seq<char>>) {
    (m.name@, "Marcador | "@ + m.time@, EntryKind::Marker, Target::Marker(m.time_bits), None)
}

/// `s` on one line: each line feed a space.
pub open spec fn on_one_line(s: Seq<char>) -> Seq<char> {
    s.map_values(|c: char| if c == '\n' { ' ' } else { c })
}

/// The entry of a subtitle: its text on one line, then `Subtitulo | ` and
/// its time.
pub open spec fn subtitle_item(m: TimedItem) -> (Seq<char>, Seq<char>, EntryKind, Target, Option<Seq<char>>) {
    (on_one_line(m.name@), "Subtitulo | "@ + m.time@, EntryKind::Subtitle, Target::Subtitle(m.time_bits), None)
}

/// Every entry of the centre: the fixed commands for the state `s`, then
/// one entry for each clip, each marker and each subtitle, in order.
pub open spec fn center_entries_of(
    s: CenterState,
    clips: Seq<ClipItem>,
    markers: Seq<TimedItem>,
    subtitles: Seq<TimedItem>,
) -> Seq<(Seq<char>, Seq<char>, EntryKind, Target, Option<Seq<char>>)> {
    commands_of(s).map_values(|c: (Seq<char>, Seq<char>, Action, Option<Seq<char>>)| command_item(c))
        + Seq::new(clips.len(), |i: int| clip_item(i, clips[i]))
        + markers.map_values(|m: TimedItem| marker_item(m))
        + subtitles.map_values(|m: TimedItem| subtitle_item(m))
}

fn text_of(chars: &Vec<char>) -> (s: String)
    ensures
        s@ == chars@,
{
    chars_to_string(chars)
}

/// The entries of the centre: the fixed commands for the state `s`, then
/// one entry for each clip (choosing it selects the clip), each marker and
/// each subtitle (choosing them goes to their time), in the order given.
pub fn center_entries(
    s: &CenterState,
    clips: &Vec<ClipItem>,
    markers: &Vec<TimedItem>,
    subtitles: &Vec<TimedItem>,
) -> (r: Vec<CenterEntry>)
    ensures
        center_views(r@) == center_entries_of(*s, clips@, markers@, subtitles@),
        r@.len() == 21 + clips@.len() + markers@.len() + subtitles@.len(),
{
    let ghost all = center_entries_of(*s, clips@, markers@, subtitles@);
    let ghost cmds = commands_of(*s).map_values(
        |c: (Seq<char>, Seq<char>, Action, Option<Seq<char>>)| command_item(c),
    );
    let ghost cl = Seq::new(clips@.len(), |i: int| clip_item(i, clips@[i]));
    let ghost mk = markers@.map_values(|m: TimedItem| marker_item(m));
    let ghost sb = subtitles@.map_values(|m: TimedItem| subtitle_item(m));
    let commands = command_entries(s);
    let mut r: Vec<CenterEntry> = Vec::new();
    let mut i: usize = 0;
    while i < commands.len()
        invariant
            i <= commands.len(),
            command_views(commands@) == commands_of(*s),
            cmds == commands_of(*s).map_values(
                |c: (Seq<char>, Seq<char>, Action, Option<Seq<char>>)| command_item(c),
            ),
            center_views(r@) == cmds.take(i as int),
        decreases commands.len() - i,
    {
        let c = commands[i];
        assert(command_view(c) == commands_of(*s)[i as int]);
        let e = CenterEntry {
            title: text_of(&to_chars(c.title)),
            detail: text_of(&to_chars(c.detail)),
            kind: EntryKind::Command,
            target: Target::Command(c.action),
            unavailable: c.unavailable,
        };
        let ghost before = r@;
        r.push(e);
        assert(center_views(r@) =~= center_views(before).push(center_view(e)));
        assert(cmds.take(i + 1) =~= cmds.take(i as int).push(cmds[i as int]));
        i = i + 1;
    }
    assert(cmds.take(i as int) =~= cmds);
    let mut k: usize = 0;
    while k < clips.len()
        invariant
            k <= clips.len(),
            cl == Seq::new(clips@.len(), |i: int| clip_item(i, clips@[i])),
            center_views(r@) == cmds + cl.take(k as int),
        decreases clips.len() - k,
    {
        let c = &clips[k];
        let mut detail: Vec<char> = Vec::new();
        push_str(&mut detail, "Clip | ");
        detail.push(if c.has_video { 'V' } else { 'A' });
        crate::text::push_decimal_wide(&mut detail, c.track as u128 + 1);
        push_str(&mut detail, " | ");
        push_str(&mut detail, c.time.as_str());
        push_str(&mut detail, " | ");
        push_str(&mut detail, c.path.as_str());
        let e = CenterEntry {
            title: text_of(&to_chars(c.name.as_str())),
            detail: text_of(&detail),
            kind: EntryKind::Clip,
            target: Target::Clip(k),
            unavailable: None,
        };
        assert(center_view(e) == clip_item(k as int, clips@[k as int])) by {
            let v = if c.has_video { seq!['V'] } else { seq!['A'] };
            assert(detail@ =~= "Clip | "@ + v + crate::text::decimal(c.track as nat + 1) + " | "@ + c.time@ + " | "@
                + c.path@);
        }
        let ghost before = r@;
        r.push(e);
        assert(center_views(r@) =~= center_views(before).push(center_view(e)));
        assert(cmds + cl.take(k + 1) =~= (cmds + cl.take(k as int)).push(cl[k as int]));
        k = k + 1;
    }
    assert(cl.take(k as int) =~= cl);
    let mut m: usize = 0;
    while m < markers.len()
        invariant
            m <= markers.len(),
            mk == markers@.map_values(|m: TimedItem| marker_item(m)),
            center_views(r@) == cmds + cl + mk.take(m as int),
        decreases markers.len() - m,
    {
        let t = &markers[m];
        let mut detail: Vec<char> = Vec::new();
        push_str(&mut detail, "Marcador | ");
        push_str(&mut detail, t.time.as_str());
        let e = CenterEntry {
            title: text_of(&to_chars(t.name.as_str())),
            detail: text_of(&detail),
            kind: EntryKind::Marker,
            target: Target::Marker(t.time_bits),
            unavailable: None,
        };
        assert(center_view(e) == marker_item(markers@[m as int]));
        let ghost before = r@;
        r.push(e);
        assert(center_views(r@) =~= center_views(before).push(center_view(e)));
        assert(cmds + cl + mk.take(m + 1) =~= (cmds + cl + mk.take(m as int)).push(mk[m as int]));
        m = m + 1;
    }
    assert(mk.take(m as int) =~= mk);
    let mut n: usize = 0;
    while n < subtitles.len()
        invariant
            n <= subtitles.len(),
            sb == subtitles@.map_values(|m: TimedItem| subtitle_item(m)),
            center_views(r@) == cmds + cl + mk + sb.take(n as int),
        decreases subtitles.len() - n,
    {
        let t = &subtitles[n];
        let text = to_chars(t.name.as_str());
        let mut title: Vec<char> = Vec::new();
        let mut j: usize = 0;
        while j < text.len()
            invariant
                j <= text.len(),
                title@ == on_one_line(text@.take(j as int)),
            decreases text.len() - j,
        {
            title.push(if text[j] == '\n' { ' ' } else { text[j] });
            assert(on_one_line(text@.take(j + 1)) =~= on_one_line(text@.take(j as int)).push(
                if text@[j as int] == '\n' { ' ' } else { text@[j as int] },
            ));
            j = j + 1;
        }
        assert(text@.take(j as int) =~= text@);
        let mut detail: Vec<char> = Vec::new();
        push_str(&mut detail, "Subtitulo | ");
        push_str(&mut detail, t.time.as_str());
        let e = CenterEntry {
            title: text_of(&title),
            detail: text_of(&detail),
            kind: EntryKind::Subtitle,
            target: Target::Subtitle(t.time_bits),
            unavailable: None,
        };
        assert(center_view(e) == subtitle_item(subtitles@[n as int]));
        let ghost before = r@;
        r.push(e);
        assert(center_views(r@) =~= center_views(before).push(center_view(e)));
        assert(cmds + cl + mk + sb.take(n + 1) =~= (cmds + cl + mk + sb.take(n as int)).push(sb[n as int]));
        n = n + 1;
    }
    assert(sb.take(n as int) =~= sb);
    assert(center_views(r@) == all);
    assert(r@.len() == center_views(r@).len());
    r
}

/// The characters that open a scoped query.
pub open spec fn is_scope(c: char) -> bool {
    c == '>' || c == '@' || c == '#' || c == '=' || c == ':'
}

/// The scope that opens the trimmed query, with the rest of the query
/// trimmed; without one, no scope and the trimmed query.
pub open spec fn scope_and_needle(query: Seq<char>) -> (Option<char>, Seq<char>) {
    let q = trim(query);
    if q.len() > 0 && is_scope(q[0]) {
        (Some(q[0]), trim(q.skip(1)))
    } else {
        (None, q)
    }
}

/// Whether an entry of `kind` is listed under `scope`: `@` clips, `#`
/// markers, `=` subtitles, `>` commands; any entry otherwise.
pub open spec fn in_scope(scope: Option<char>, kind: EntryKind) -> bool {
    match scope {
        Some(c) => if c == '@' {
            kind == EntryKind::Clip
        } else if c == '#' {
            kind == EntryKind::Marker
        } else if c == '=' {
            kind == EntryKind::Subtitle
        } else if c == '>' {
            kind == EntryKind::Command
        } else {
            true
        },
        None => true,
    }
}

/// What the entries are searched for: nothing under `:` (the entries are
/// then the positions the timecode names), the needle otherwise.
pub open spec fn search_key(query: Seq<char>) -> Seq<char> {
    if scope_and_needle(query).0 == Some(':') {
        Seq::empty()
    } else {
        scope_and_needle(query).1
    }
}

/// The score of `e` for `query`: `None` when it lies out of the scope or
/// does not match.
pub open spec fn entry_score(query: Seq<char>, e: CenterEntry) -> Option<nat> {
    if in_scope(scope_and_needle(query).0, e.kind) {
        search_score_of(search_key(query), e.title@, e.detail@)
    } else {
        None
    }
}

/// `(score, index)` of each entry that matches, in the order of the entries.
pub open spec fn scored(query: Seq<char>, entries: Seq<CenterEntry>) -> Seq<(nat, nat)>
    decreases entries.len(),
{
    if entries.len() == 0 {
        Seq::empty()
    } else {
        let prev = scored(query, entries.drop_last());
        match entry_score(query, entries.last()) {
            Some(v) => prev.push((v, (entries.len() - 1) as nat)),
            None => prev,
        }
    }
}

/// Orders matches by score, lower first.
pub open spec fn by_score() -> spec_fn((nat, nat), (nat, nat)) -> bool {
    |a: (nat, nat), b: (nat, nat)| a.0 <= b.0
}

/// The matches of `query`, best first; a stable sort keeps ties in the
/// order of the entries.
pub open spec fn matches_of(query: Seq<char>, entries: Seq<CenterEntry>) -> Seq<(nat, nat)> {
    stable_sorted(scored(query, entries), by_score())
}

pub open spec fn pair_views(v: Seq<(usize, usize)>) -> Seq<(nat, nat)> {
    v.map_values(|p: (usize, usize)| (p.0 as nat, p.1 as nat))
}

fn scope_char(c: char) -> (b: bool)
    ensures
        b == is_scope(c),
{
    c == '>' || c == '@' || c == '#' || c == '=' || c == ':'
}

fn listed_under(scope: Option<char>, kind: EntryKind) -> (b: bool)
    ensures
        b == in_scope(scope, kind),
{
    match scope {
        Some(c) => if c == '@' {
            kind == EntryKind::Clip
        } else if c == '#' {
            kind == EntryKind::Marker
        } else if c == '=' {
            kind == EntryKind::Subtitle
        } else if c == '>' {
            kind == EntryKind::Command
        } else {
            true
        },
        None => true,
    }
}

/// `v` sorted by score, lower first, keeping ties in order.
fn sort_by_score(v: Vec<(usize, usize)>) -> (r: Vec<(usize, usize)>)
    ensures
        pair_views(r@) == stable_sorted(pair_views(v@), by_score()),
{
    let ghost le = by_score();
    let ghost input = pair_views(v@);
    let mut out: Vec<(usize, usize)> = Vec::new();
    let mut k: usize = 0;
    assert(input.take(0) =~= Seq::<(nat, nat)>::empty());
    assert(pair_views(out@) =~= Seq::<(nat, nat)>::empty());
    while k < v.len()
        invariant
            k <= v.len(),
            le == by_score(),
            input == pair_views(v@),
            pair_views(out@) == stable_sorted(input.take(k as int), le),
        decreases v.len() - k,
    {
        let u = v[k];
        let ghost uv = (u.0 as nat, u.1 as nat);
        let ghost sv = pair_views(out@);
        assert(input[k as int] == uv);
        let mut p = out.len();
        while p > 0 && !(out[p - 1].0 <= u.0)
            invariant
                p <= out.len(),
                sv == pair_views(out@),
                le == by_score(),
                uv == (u.0 as nat, u.1 as nat),
                forall|j: int| p <= j < sv.len() ==> !le(#[trigger] sv[j], uv),
            decreases p,
        {
            p = p - 1;
        }
        proof {
            lemma_insert_sorted_at(sv, uv, le, p as int);
            assert(input.take(k + 1).drop_last() =~= input.take(k as int));
            assert(input.take(k + 1).last() == uv);
        }
        out.insert(p, u);
        assert(pair_views(out@) =~= sv.take(p as int).push(uv) + sv.skip(p as int));
        k = k + 1;
    }
    assert(input.take(k as int) =~= input);
    out
}

/// The entries that `query` finds, as `(score, index)`, best first; ties
/// keep the order of the entries. A query opened by `>`, `@`, `#`, `=` or
/// `:` lists only commands, clips, markers, subtitles or the positions of a
/// timecode, and is searched for what follows.
pub fn center_matches(query: &str, entries: &Vec<CenterEntry>) -> (r: Vec<(usize, usize)>)
    ensures
        pair_views(r@) == matches_of(query@, entries@),
{
    let q = trimmed(&to_chars(query));
    let mut scope: Option<char> = None;
    let mut needle: Vec<char> = slice_of(&q, 0, q.len());
    assert(needle@ =~= q@);
    if q.len() > 0 && scope_char(q[0]) {
        scope = Some(q[0]);
        let rest = slice_of(&q, 1, q.len());
        assert(rest@ =~= q@.skip(1));
        needle = trimmed(&rest);
    }
    let timecode = match scope {
        Some(c) => c == ':',
        None => false,
    };
    let key_chars: Vec<char> = if timecode { Vec::new() } else { needle };
    let key = chars_to_string(&key_chars);
    assert(key@ == search_key(query@)) by {
        if timecode {
            assert(key_chars@ =~= Seq::<char>::empty());
        }
    }
    let mut found: Vec<(usize, usize)> = Vec::new();
    let mut i: usize = 0;
    assert(entries@.take(0) =~= Seq::<CenterEntry>::empty());
    assert(pair_views(found@) =~= Seq::<(nat, nat)>::empty());
    while i < entries.len()
        invariant
            i <= entries.len(),
            scope == scope_and_needle(query@).0,
            key@ == search_key(query@),
            pair_views(found@) == scored(query@, entries@.take(i as int)),
        decreases entries.len() - i,
    {
        let e = &entries[i];
        assert(entries@.take(i + 1).drop_last() =~= entries@.take(i as int));
        assert(entries@.take(i + 1).last() == *e);
        if listed_under(scope, e.kind) {
            match search_score(key.as_str(), e.title.as_str(), e.detail.as_str()) {
                Some(v) => {
                    let ghost before = found@;
                    found.push((v, i));
                    assert(pair_views(found@) =~= pair_views(before).push((v as nat, i as nat)));
                },
                None => {},
            }
        }
        i = i + 1;
    }
    assert(entries@.take(i as int) =~= entries@);
    sort_by_score(found)
}

/// Every `(score, index)` found names an entry that matches with that score,
/// and every entry that matches is found.
proof fn lemma_scored(query: Seq<char>, entries: Seq<CenterEntry>)
    ensures
        forall|k: int|
            0 <= k < scored(query, entries).len() ==> (#[trigger] scored(query, entries)[k]).1
                < entries.len() && entry_score(query, entries[scored(query, entries)[k].1 as int])
                == Some(scored(query, entries)[k].0),
        forall|i: int|
            0 <= i < entries.len() && (#[trigger] entry_score(query, entries[i])) is Some
                ==> scored(query, entries).contains((entry_score(query, entries[i])->0, i as nat)),
    decreases entries.len(),
{
    if entries.len() > 0 {
        let d = entries.drop_last();
        lemma_scored(query, d);
        let prev = scored(query, d);
        assert forall|i: int|
            0 <= i < entries.len() && (#[trigger] entry_score(query, entries[i])) is Some
                implies scored(query, entries).contains((entry_score(query, entries[i])->0, i as nat)) by {
            if i < entries.len() - 1 {
                assert(entries[i] == d[i]);
                assert(entry_score(query, d[i]) is Some);
                let k = choose|k: int| 0 <= k < prev.len() && prev[k] == (entry_score(query, d[i])->0, i as nat);
                assert(scored(query, entries)[k] == prev[k]);
            } else {
                let s = scored(query, entries);
                assert(s[s.len() - 1] == (entry_score(query, entries[i])->0, i as nat));
            }
        }
    }
}

/// The centre lists its matches best first: every match is an entry in the
/// scope that matches, with its score, and every such entry is listed once.
pub proof fn lemma_matches_ranked(query: Seq<char>, entries: Seq<CenterEntry>)
    ensures
        sorted_by(matches_of(query, entries), by_score()),
        matches_of(query, entries).to_multiset() == scored(query, entries).to_multiset(),
        forall|k: int|
            0 <= k < matches_of(query, entries).len() ==> (#[trigger] matches_of(query, entries)[k]).1
                < entries.len() && entry_score(query, entries[matches_of(query, entries)[k].1 as int])
                == Some(matches_of(query, entries)[k].0),
        forall|i: int|
            0 <= i < entries.len() && (#[trigger] entry_score(query, entries[i])) is Some
                ==> matches_of(query, entries).contains((entry_score(query, entries[i])->0, i as nat)),
{
    broadcast use vstd::seq_lib::group_to_multiset_ensures;

    let s = scored(query, entries);
    let m = matches_of(query, entries);
    assert(total_preorder(by_score())) by {
        assert forall|a: (nat, nat), b: (nat, nat)| #[trigger] by_score()(a, b) || by_score()(b, a) by {}
        assert forall|a: (nat, nat), b: (nat, nat), c: (nat, nat)|
            #[trigger] by_score()(a, b) && #[trigger] by_score()(b, c) implies by_score()(a, c) by {}
    }
    lemma_stable_sorted(s, by_score());
    lemma_scored(query, entries);
    assert forall|k: int| 0 <= k < m.len() implies (#[trigger] m[k]).1 < entries.len() && entry_score(
        query,
        entries[m[k].1 as int],
    ) == Some(m[k].0) by {
        assert(m.to_multiset().count(m[k]) > 0);
        assert(s.to_multiset().count(m[k]) > 0);
        let j = choose|j: int| 0 <= j < s.len() && s[j] == m[k];
        assert(s[j] == m[k]);
    }
    assert forall|i: int|
        0 <= i < entries.len() && (#[trigger] entry_score(query, entries[i])) is Some implies m.contains(
            (entry_score(query, entries[i])->0, i as nat),
        ) by {
        let x = (entry_score(query, entries[i])->0, i as nat);
        assert(s.contains(x));
        assert(s.to_multiset().count(x) > 0);
        assert(m.to_multiset().count(x) > 0);
    }
}

// ---------------------------------------------------------------------------
// Selecting from the centre
// ---------------------------------------------------------------------------

/// Whether clip `i` is chosen: by inverting the selection `current` when
/// `invert`, the clips not in it; otherwise the disabled clips.
pub open spec fn chosen(current: Seq<usize>, enabled: Seq<bool>, invert: bool, i: int) -> bool {
    if invert {
        !current.contains(i as usize)
    } else {
        !enabled[i]
    }
}

/// The clips among the first `n` that are chosen, in increasing order.
pub open spec fn chosen_among(current: Seq<usize>, enabled: Seq<bool>, invert: bool, n: nat) -> Seq<usize>
    decreases n,
{
    if n == 0 {
        Seq::empty()
    } else {
        let prev = chosen_among(current, enabled, invert, (n - 1) as nat);
        if chosen(current, enabled, invert, n - 1) {
            prev.push((n - 1) as usize)
        } else {
            prev
        }
    }
}

/// The selection after inverting it (`invert`) or after selecting the
/// disabled clips: the indices of the clips (`enabled` has one flag per
/// clip) that are chosen, in increasing order.
pub fn reselect(current: &Vec<usize>, enabled: &Vec<bool>, invert: bool) -> (selection: Vec<usize>)
    ensures
        selection@ == chosen_among(current@, enabled@, invert, enabled@.len()),
{
    let mut selection: Vec<usize> = Vec::new();
    let mut i: usize = 0;
    while i < enabled.len()
        invariant
            i <= enabled.len(),
            selection@ == chosen_among(current@, enabled@, invert, i as nat),
        decreases enabled.len() - i,
    {
        let pick = if invert {
            let mut found = false;
            let mut j: usize = 0;
            while j < current.len()
                invariant
                    j <= current.len(),
                    found == current@.take(j as int).contains(i),
                decreases current.len() - j,
            {
                let ghost before = current@.take(j as int);
                let ghost after = current@.take(j + 1);
                assert(after =~= before.push(current@[j as int]));
                if current[j] == i {
                    found = true;
                    assert(after[j as int] == i);
                } else {
                    assert(after.contains(i) ==> before.contains(i)) by {
                        if after.contains(i) {
                            let k = choose|k: int| 0 <= k < after.len() && after[k] == i;
                            assert(before[k] == after[k]);
                        }
                    }
                    assert(before.contains(i) ==> after.contains(i)) by {
                        if before.contains(i) {
                            let k = choose|k: int| 0 <= k < before.len() && before[k] == i;
                            assert(after[k] == before[k]);
                        }
                    }
                }
                j = j + 1;
            }
            assert(current@.take(current.len() as int) =~= current@);
            !found
        } else {
            !enabled[i]
        };
        if pick {
            selection.push(i);
        }
        i = i + 1;
    }
    selection
}

/// What is chosen is exactly the clips chosen, each once, in increasing
/// order.
pub proof fn lemma_chosen_exactly(current: Seq<usize>, enabled: Seq<bool>, invert: bool, n: nat)
    requires
        n <= enabled.len(),
        n <= usize::MAX + 1,
    ensures
        forall|i: int| 0 <= i < n ==> (chosen_among(current, enabled, invert, n).contains(i as usize) <==> chosen(
            current,
            enabled,
            invert,
            i,
        )),
        forall|a: int, b: int|
            0 <= a < b < chosen_among(current, enabled, invert, n).len() ==> chosen_among(
                current,
                enabled,
                invert,
                n,
            )[a] < chosen_among(current, enabled, invert, n)[b],
        forall|a: int|
            0 <= a < chosen_among(current, enabled, invert, n).len() ==> chosen_among(
                current,
                enabled,
                invert,
                n,
            )[a] < n,
    decreases n,
{
    if n > 0 {
        lemma_chosen_exactly(current, enabled, invert, (n - 1) as nat);
        let prev = chosen_among(current, enabled, invert, (n - 1) as nat);
        let all = chosen_among(current, enabled, invert, n);
        assert forall|i: int| 0 <= i < n implies (all.contains(i as usize) <==> chosen(current, enabled, invert, i)) by {
            if chosen(current, enabled, invert, n - 1) {
                assert(all == prev.push((n - 1) as usize));
                if i < n - 1 {
                    if all.contains(i as usize) {
                        let k = choose|k: int| 0 <= k < all.len() && all[k] == i as usize;
                        if k < prev.len() {
                            assert(prev[k] == all[k]);
                        }
                    }
                    if prev.contains(i as usize) {
                        let k = choose|k: int| 0 <= k < prev.len() && prev[k] == i as usize;
                        assert(all[k] == prev[k]);
                    }
                } else {
                    assert(all[prev.len() as int] == (n - 1) as usize);
                }
            } else {
                if i == n - 1 && all.contains(i as usize) {
                    let k = choose|k: int| 0 <= k < all.len() && all[k] == i as usize;
                    assert(prev[k] < n - 1);
                }
            }
        }
    }
}

// ---------------------------------------------------------------------------
// The centre's window
// ---------------------------------------------------------------------------

/// The window of the centre: whether it is open, the query typed, the row
/// under the cursor among the matches, and whether the query field is to
/// take the focus.
pub struct CenterPanel {
    pub open: bool,
    pub query: String,
    pub cursor: usize,
    pub focus: bool,
}

impl CenterPanel {
    /// Opens the centre with an empty query, the cursor on the first row and
    /// the focus on the query field.
    pub fn open(&mut self)
        ensures
            final(self).open,
            final(self).query@.len() == 0,
            final(self).cursor == 0,
            final(self).focus,
    {
        self.open = true;
        self.query = String::new();
        self.cursor = 0;
        self.focus = true;
    }
}

/// The cursor after one frame of the window with `count` matches: on the
/// first row when the query changed, kept on the last row at most, one row
/// down for the down arrow, one row up (not above the first) for the up
/// arrow.
pub open spec fn moved_cursor(cursor: nat, count: nat, changed: bool, down: bool, up: bool) -> nat {
    let last: nat = if count == 0 { 0 } else { (count - 1) as nat };
    let c0: nat = if changed { 0 } else { cursor };
    let c1: nat = if c0 < last { c0 } else { last };
    let c2: nat = if down { if c1 + 1 < last { c1 + 1 } else { last } } else { c1 };
    if up {
        if c2 == 0 { 0 } else { (c2 - 1) as nat }
    } else {
        c2
    }
}

/// Moves the cursor of the centre, as `moved_cursor` says.
pub fn move_cursor(cursor: usize, count: usize, changed: bool, down: bool, up: bool) -> (c: usize)
    ensures
        c == moved_cursor(cursor as nat, count as nat, changed, down, up),
{
    let last = if count == 0 { 0 } else { count - 1 };
    let c0 = if changed { 0 } else { cursor };
    let c1 = if c0 < last { c0 } else { last };
    let c2 = if down {
        if c1 < last { c1 + 1 } else { last }
    } else {
        c1
    };
    if up {
        if c2 == 0 { 0 } else { c2 - 1 }
    } else {
        c2
    }
}

/// What Enter runs: the target of the entry under the cursor among the
/// matches `(score, index)`, when there is one and it is available.
pub open spec fn entered(
    matches: Seq<(usize, usize)>,
    entries: Seq<CenterEntry>,
    cursor: nat,
) -> Option<Target> {
    if cursor < matches.len() && matches[cursor as int].1 < entries.len() && entries[matches[
        cursor as int].1 as int].unavailable is None {
        Some(entries[matches[cursor as int].1 as int].target)
    } else {
        None
    }
}

/// The target Enter runs, as `entered` says.
pub fn enter_choice(matches: &Vec<(usize, usize)>, entries: &Vec<CenterEntry>, cursor: usize) -> (r: Option<
    Target,
>)
    ensures
        r == entered(matches@, entries@, cursor as nat),
{
    if cursor < matches.len() && matches[cursor].1 < entries.len() {
        let e = &entries[matches[cursor].1];
        if e.unavailable.is_none() {
            return Some(e.target);
        }
    }
    None
}

} // verus!
