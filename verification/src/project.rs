//! Projects: their identifiers and settings, the names of their backups,
//! which backups to prune, and the checksum text of their assets. Reading
//! and writing the files belongs to the caller.
use vstd::prelude::*;
use crate::text::{
    chars_start_with, chars_to_string, decimal, hex_digits, push_decimal, push_decimal_wide, push_hex,
    push_str,
    starts_with, to_chars,
};

verus! {

/// A sequence of a project.
#[derive(Debug, Clone)]
pub struct SequenceRef {
    pub id: String,
    pub name: String,
}

/// Resolution of the proxies a project generates.
#[derive(Debug, Clone, Copy, PartialEq, Eq, Structural)]
pub enum ProxyQualitySetting {
    Quarter,
    Half,
    Full,
}

/// Working colour space of a project.
#[derive(Debug, Clone, Copy, PartialEq, Eq, Structural)]
pub enum ColorSpace {
    Rec709,
    Rec2020,
    DCIP3,
    SRGB,
}

/// Name of the folder, inside the workspace, that holds the backups.
pub const BACKUP_FOLDER: &'static str = ".editorcito_backups";

/// Writes projects and prunes their backups, kept in one folder.
pub struct ProjectCodec {
    backup_dir: String,
}

/// A file of the backup folder and when it was last written (nanoseconds
/// from the Unix epoch; negative before it; the epoch when unknown).
#[derive(Debug, Clone)]
pub struct BackupFile {
    pub name: String,
    pub modified: i128,
}

/// `prefix`, `id`, `_`, `version`, `.json`.
pub open spec fn snapshot_name(prefix: Seq<char>, id: Seq<char>, version: nat) -> Seq<char> {
    prefix + id + seq!['_'] + decimal(version) + ".json"@
}

/// A backup or autosave file of the project `id`.
pub open spec fn is_snapshot_of(name: Seq<char>, id: Seq<char>) -> bool {
    starts_with(name, "backup_"@ + id + seq!['_']) || starts_with(name, "autosave_"@ + id + seq!['_'])
}

/// Backups are pruned oldest first; among equally old ones, in the order the
/// folder listed them.
pub open spec fn pruned_before(files: Seq<BackupFile>, a: usize, b: usize) -> bool {
    files[a as int].modified < files[b as int].modified || (files[a as int].modified
        == files[b as int].modified && a < b)
}

/// The positions of the project's snapshots, in the order they are pruned.
pub open spec fn in_prune_order(files: Seq<BackupFile>, s: Seq<usize>) -> bool {
    forall|i: int, j: int| 0 <= i < j < s.len() ==> pruned_before(files, #[trigger] s[i], #[trigger] s[j])
}

/// The positions of the snapshots of `id` among `files`.
pub open spec fn snapshot_positions(files: Seq<BackupFile>, id: Seq<char>) -> Set<usize> {
    Set::new(|i: usize| i < files.len() && is_snapshot_of(files[i as int].name@, id))
}

/// A pruning plan: `plan` lists every snapshot of the project once, in
/// prune order, and the first `remove` of them are deleted so that at most
/// `keep` remain.
pub open spec fn prune_plan(files: Seq<BackupFile>, id: Seq<char>, keep: nat, plan: Seq<usize>, remove: nat) -> bool {
    &&& plan.to_set() == snapshot_positions(files, id)
    &&& plan.no_duplicates()
    &&& in_prune_order(files, plan)
    &&& remove == (if plan.len() > keep {
        plan.len() - keep
    } else {
        0
    })
}

impl ProjectCodec {
    /// A codec keeping its backups in `backup_dir` (the caller creates it).
    pub fn new(backup_dir: String) -> (c: Self)
        ensures
            c.backup_dir_view() == backup_dir@,
    {
        ProjectCodec { backup_dir }
    }

    pub closed spec fn backup_dir_view(&self) -> Seq<char> {
        self.backup_dir@
    }

    /// The backup folder.
    pub fn backup_dir(&self) -> (s: &str)
        ensures
            s@ == self.backup_dir_view(),
    {
        self.backup_dir.as_str()
    }

    /// Which files of the backup folder to delete so that the project `id`
    /// keeps at most `max_backup_count` snapshots: the positions of its
    /// snapshots in prune order, and how many of them (from the front) go.
    pub fn backups_to_prune(&self, files: &Vec<BackupFile>, id: &str, max_backup_count: usize) -> (r: (
        Vec<usize>,
        usize,
    ))
        ensures
            prune_plan(files@, id@, max_backup_count as nat, r.0@, r.1 as nat),
    {
        let backup_prefix = snapshot_prefix("backup_", id);
        let autosave_prefix = snapshot_prefix("autosave_", id);
        let mut plan: Vec<usize> = Vec::new();
        let mut i: usize = 0;
        while i < files.len()
            invariant
                i <= files.len(),
                backup_prefix@ == "backup_"@ + id@ + seq!['_'],
                autosave_prefix@ == "autosave_"@ + id@ + seq!['_'],
                plan@.no_duplicates(),
                in_prune_order(files@, plan@),
                forall|k: int| 0 <= k < plan.len() ==> #[trigger] plan@[k] < i,
                plan@.to_set() == Set::new(
                    |k: usize| k < i && is_snapshot_of(files@[k as int].name@, id@),
                ),
            decreases files.len() - i,
        {
            let name = to_chars(files[i].name.as_str());
            let ghost before = plan@;
            if chars_start_with(&name, &backup_prefix) || chars_start_with(&name, &autosave_prefix) {
                assert(is_snapshot_of(files@[i as int].name@, id@));
                let mut p: usize = 0;
                while p < plan.len() && pruned_first(files, plan[p], i)
                    invariant
                        p <= plan.len(),
                        i < files.len(),
                        forall|k: int| 0 <= k < plan.len() ==> #[trigger] plan@[k] < i,
                        forall|k: int| 0 <= k < p ==> pruned_before(files@, #[trigger] plan@[k], i),
                    decreases plan.len() - p,
                {
                    p = p + 1;
                }
                proof {
                    if p < before.len() {
                        assert(!pruned_before(files@, before[p as int], i));
                        assert(before[p as int] < i);
                    }
                }
                plan.insert(p, i);
                proof {
                    assert(plan@ == before.insert(p as int, i));
                    assert forall|a: int, b: int| 0 <= a < b < plan@.len() implies pruned_before(
                        files@,
                        #[trigger] plan@[a],
                        #[trigger] plan@[b],
                    ) by {
                        if b < p {
                        } else if b == p {
                            assert(plan@[a] == before[a]);
                        } else if a == p {
                            assert(plan@[b] == before[b - 1]);
                            assert(pruned_before(files@, before[p as int], before[b - 1]) || p == b - 1);
                        } else if a < p {
                            assert(plan@[a] == before[a]);
                            assert(plan@[b] == before[b - 1]);
                        } else {
                            assert(plan@[a] == before[a - 1]);
                            assert(plan@[b] == before[b - 1]);
                        }
                    }
                    assert forall|a: int, b: int| 0 <= a < b < plan@.len() implies plan@[a] != plan@[b] by {
                        if a == p {
                            assert(plan@[b] == before[b - 1]);
                        } else if b == p {
                            assert(plan@[a] == before[a]);
                        } else {
                            let oa = if a < p { a } else { a - 1 };
                            let ob = if b < p { b } else { b - 1 };
                            assert(plan@[a] == before[oa] && plan@[b] == before[ob]);
                        }
                    }
                    vstd::seq_lib::seq_to_set_is_finite(plan@);
                    assert(plan@.to_set() =~= Set::new(
                        |k: usize| k < i + 1 && is_snapshot_of(files@[k as int].name@, id@),
                    )) by {
                        assert forall|k: usize| #[trigger] plan@.to_set().contains(k) <==> (k < i + 1
                            && is_snapshot_of(files@[k as int].name@, id@)) by {
                            assert(plan@.to_set().contains(k) == plan@.contains(k));
                            assert(before.to_set().contains(k) == before.contains(k));
                            if k == i {
                                assert(plan@[p as int] == i);
                                assert(plan@.contains(k));
                            }
                            if plan@.contains(k) && k != i {
                                let w = choose|w: int| 0 <= w < plan@.len() && plan@[w] == k;
                                if w < p {
                                    assert(before[w] == k);
                                } else {
                                    assert(before[w - 1] == k);
                                }
                            }
                            if before.contains(k) {
                                let w = choose|w: int| 0 <= w < before.len() && before[w] == k;
                                if w < p {
                                    assert(plan@[w] == k);
                                } else {
                                    assert(plan@[w + 1] == k);
                                }
                            }
                        }
                    }
                }
            } else {
                assert(plan@.to_set() =~= Set::new(
                    |k: usize| k < i + 1 && is_snapshot_of(files@[k as int].name@, id@),
                ));
            }
            i = i + 1;
        }
        assert(plan@.to_set() =~= snapshot_positions(files@, id@));
        let remove = if plan.len() > max_backup_count {
            plan.len() - max_backup_count
        } else {
            0
        };
        (plan, remove)
    }
}

fn pruned_first(files: &Vec<BackupFile>, a: usize, b: usize) -> (r: bool)
    requires
        a < files.len(),
        b < files.len(),
    ensures
        r == pruned_before(files@, a, b),
{
    files[a].modified < files[b].modified || (files[a].modified == files[b].modified && a < b)
}

fn snapshot_prefix(kind: &str, id: &str) -> (v: Vec<char>)
    ensures
        v@ == kind@ + id@ + seq!['_'],
{
    let mut v: Vec<char> = Vec::new();
    push_str(&mut v, kind);
    push_str(&mut v, id);
    v.push('_');
    assert(v@ =~= kind@ + id@ + seq!['_']);
    v
}

/// Name of a backup written by a save: `backup_<id>_<version>.json`.
pub fn backup_file_name(id: &str, version: u64) -> (s: String)
    ensures
        s@ == snapshot_name("backup_"@, id@, version as nat),
{
    let mut v = snapshot_prefix("backup_", id);
    push_decimal(&mut v, version);
    push_str(&mut v, ".json");
    assert(v@ =~= snapshot_name("backup_"@, id@, version as nat));
    chars_to_string(&v)
}

/// Name of an autosave: `autosave_<id>_<version>.json`.
pub fn autosave_file_name(id: &str, version: u64) -> (s: String)
    ensures
        s@ == snapshot_name("autosave_"@, id@, version as nat),
{
    let mut v = snapshot_prefix("autosave_", id);
    push_decimal(&mut v, version);
    push_str(&mut v, ".json");
    assert(v@ =~= snapshot_name("autosave_"@, id@, version as nat));
    chars_to_string(&v)
}

/// Identifier of a new project: `editorcito_<process>_<millis>_<sequence>`.
pub fn project_id(process: u32, millis: u128, sequence: u64) -> (s: String)
    ensures
        s@ == "editorcito_"@ + decimal(process as nat) + seq!['_'] + decimal(millis as nat) + seq!['_']
            + decimal(sequence as nat),
{
    let mut v: Vec<char> = Vec::new();
    push_str(&mut v, "editorcito_");
    push_decimal(&mut v, process as u64);
    v.push('_');
    push_decimal_wide(&mut v, millis);
    v.push('_');
    push_decimal(&mut v, sequence);
    assert(v@ =~= "editorcito_"@ + decimal(process as nat) + seq!['_'] + decimal(millis as nat)
        + seq!['_'] + decimal(sequence as nat));
    chars_to_string(&v)
}

/// Checksum text of an asset from the FNV-1a hash of its bytes:
/// `fnv1a64:` and sixteen lowercase hexadecimal digits.
pub fn checksum_text(hash: u64) -> (s: String)
    ensures
        s@ == "fnv1a64:"@ + hex_digits(hash as nat, 16),
{
    let mut v: Vec<char> = Vec::new();
    push_str(&mut v, "fnv1a64:");
    push_hex(&mut v, hash, 16);
    chars_to_string(&v)
}

} // verus!
