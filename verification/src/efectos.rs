//! Per-clip effects: roles in the mix and the catalogue of transitions.
use vstd::prelude::*;
use crate::text::{chars_equal, to_chars};

verus! {

/// Role of a clip in the mix, like the tags of "Essential Sound".
#[derive(Clone, Copy, Debug, Default, PartialEq, Eq, Structural)]
pub enum AudioRole {
    #[default]
    Ninguno,
    Dialogo,
    Musica,
}

/// Catalogue of transitions: stored identifier and shown name. `negro` and
/// `dissolve` are the historical ones and keep their identifiers.
pub open spec fn transitions() -> Seq<(Seq<char>, Seq<char>)> {
    seq![
        ("negro"@, "Pasar a negro"@),
        ("blanco"@, "Pasar a blanco"@),
        ("dissolve"@, "Disolución cruzada"@),
        ("deslizar_izq"@, "Deslizar desde la derecha"@),
        ("deslizar_der"@, "Deslizar desde la izquierda"@),
        ("deslizar_arriba"@, "Deslizar desde abajo"@),
        ("deslizar_abajo"@, "Deslizar desde arriba"@),
        ("empujar_izq"@, "Empujar a la izquierda"@),
        ("empujar_der"@, "Empujar a la derecha"@),
    ]
}

/// The name of the first transition with identifier `id`; unknown ones
/// show as fading to black.
pub open spec fn transition_label_of(id: Seq<char>) -> Seq<char> {
    if exists|i: int| 0 <= i < transitions().len() && (#[trigger] transitions()[i]).0 == id {
        let i = choose|i: int|
            0 <= i < transitions().len() && (#[trigger] transitions()[i]).0 == id && forall|j: int|
                0 <= j < i ==> (#[trigger] transitions()[j]).0 != id;
        transitions()[i].1
    } else {
        "Pasar a negro"@
    }
}

/// The shown name of the transition `id`.
pub fn transition_label(id: &str) -> (s: &'static str)
    ensures
        s@ == transition_label_of(id@),
{
    let keys = [
        "negro",
        "blanco",
        "dissolve",
        "deslizar_izq",
        "deslizar_der",
        "deslizar_arriba",
        "deslizar_abajo",
        "empujar_izq",
        "empujar_der",
    ];
    let labels = [
        "Pasar a negro",
        "Pasar a blanco",
        "Disolución cruzada",
        "Deslizar desde la derecha",
        "Deslizar desde la izquierda",
        "Deslizar desde abajo",
        "Deslizar desde arriba",
        "Empujar a la izquierda",
        "Empujar a la derecha",
    ];
    let target = to_chars(id);
    let ghost t = transitions();
    let mut i: usize = 0;
    while i < 9
        invariant
            i <= 9,
            target@ == id@,
            t == transitions(),
            forall|k: int| 0 <= k < 9 ==> (#[trigger] keys@[k])@ == t[k].0 && labels@[k]@ == t[k].1,
            forall|k: int| 0 <= k < i ==> (#[trigger] t[k]).0 != id@,
        decreases 9 - i,
    {
        let k = to_chars(keys[i]);
        if chars_equal(&k, &target) {
            proof {
                let w = choose|w: int|
                    0 <= w < t.len() && (#[trigger] t[w]).0 == id@ && forall|j: int|
                        0 <= j < w ==> (#[trigger] t[j]).0 != id@;
                assert(0 <= i < t.len() && t[i as int].0 == id@ && forall|j: int|
                    0 <= j < i ==> (#[trigger] t[j]).0 != id@);
                if w < i {
                } else if w > i {
                    assert(t[i as int].0 != id@);
                }
            }
            return labels[i];
        }
        i = i + 1;
    }
    "Pasar a negro"
}

/// The bits of the doubles `1.0` and `-1.0`.
pub open spec fn one_bits() -> u64 {
    0x3FF0_0000_0000_0000
}

pub open spec fn minus_one_bits() -> u64 {
    0xBFF0_0000_0000_0000
}

/// Where a moving transition brings the incoming clip from, in canvases
/// `(dx, dy)` (bits of doubles), and whether the outgoing one is pushed
/// along; `None` for the transitions that do not move.
pub open spec fn motion_spec(id: Seq<char>) -> Option<(u64, u64, bool)> {
    if id == "deslizar_izq"@ {
        Some((one_bits(), 0, false))
    } else if id == "deslizar_der"@ {
        Some((minus_one_bits(), 0, false))
    } else if id == "deslizar_arriba"@ {
        Some((0, one_bits(), false))
    } else if id == "deslizar_abajo"@ {
        Some((0, minus_one_bits(), false))
    } else if id == "empujar_izq"@ {
        Some((one_bits(), 0, true))
    } else if id == "empujar_der"@ {
        Some((minus_one_bits(), 0, true))
    } else {
        None
    }
}

fn is_text(id: &Vec<char>, literal: &str) -> (b: bool)
    ensures
        b == (id@ == literal@),
{
    let l = to_chars(literal);
    chars_equal(id, &l)
}

/// Direction a moving transition enters from: the incoming clip starts
/// `(dx, dy)` canvases away (bits of doubles) and reaches its place; the
/// flag says the outgoing one moves too (push) instead of staying below.
pub fn motion_of(id: &str) -> (r: Option<(u64, u64, bool)>)
    ensures
        r == motion_spec(id@),
{
    let t = to_chars(id);
    if is_text(&t, "deslizar_izq") {
        Some((0x3FF0_0000_0000_0000, 0, false))
    } else if is_text(&t, "deslizar_der") {
        Some((0xBFF0_0000_0000_0000, 0, false))
    } else if is_text(&t, "deslizar_arriba") {
        Some((0, 0x3FF0_0000_0000_0000, false))
    } else if is_text(&t, "deslizar_abajo") {
        Some((0, 0xBFF0_0000_0000_0000, false))
    } else if is_text(&t, "empujar_izq") {
        Some((0x3FF0_0000_0000_0000, 0, true))
    } else if is_text(&t, "empujar_der") {
        Some((0xBFF0_0000_0000_0000, 0, true))
    } else {
        None
    }
}

} // verus!
