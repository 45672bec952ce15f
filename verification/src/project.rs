//! Projects: their metadata, the order they are listed in, and the script a
//! loaded project offers for editing.

use vstd::prelude::*;

use crate::order::{is_stable_desc_order, stable_order_desc};
use crate::text::push_str;

verus! {

/// The script a new code project starts with.
pub const DEFAULT_SCRIPT: &'static str = "import cadquery as cq\n\n# A box with chamfered vertical edges\nresult = (\n    cq.Workplane(\"XY\")\n    .box(40, 40, 20)\n    .edges(\"|Z\")\n    .chamfer(4)\n)\n\nshow_object(result)\n";

/// The answer to a script write on a mesh project.
pub const MESH_NOT_EDITABLE: &'static str = "Imported mesh projects cannot be edited as code";

/// How a project's model is produced.
#[derive(Clone, Copy, PartialEq, Eq, Debug, Structural)]
pub enum ProjectMode {
    /// The model comes from a CadQuery script (`model.py`).
    Code,
    /// The model is a fixed imported mesh (`mesh.json`), not editable as code.
    Mesh,
}

impl Default for ProjectMode {
    /// Projects stored before modes existed are code projects.
    fn default() -> (m: Self)
        ensures
            m == ProjectMode::Code,
    {
        ProjectMode::Code
    }
}

/// A project's metadata (`meta.json`). Times are milliseconds since the Unix
/// epoch.
#[derive(Clone)]
pub struct ProjectInfo {
    pub id: String,
    pub name: String,
    pub created_at: u64,
    pub updated_at: u64,
    pub mode: ProjectMode,
}

impl ProjectInfo {
    /// A project created at `now`, and last updated then.
    pub fn new(id: String, name: String, now: u64, mode: ProjectMode) -> (p: Self)
        ensures
            p.id == id,
            p.name == name,
            p.created_at == now,
            p.updated_at == now,
            p.mode == mode,
    {
        ProjectInfo { id, name, created_at: now, updated_at: now, mode }
    }
}

/// Marks a project as updated at `now`; nothing else about it changes.
pub fn touch(info: &mut ProjectInfo, now: u64)
    ensures
        final(info).updated_at == now,
        final(info).id == old(info).id,
        final(info).name == old(info).name,
        final(info).created_at == old(info).created_at,
        final(info).mode == old(info).mode,
{
    info.updated_at = now;
}

/// A timestamp from the time elapsed since the Unix epoch, in milliseconds:
/// 0 when the clock stands before the epoch, else the elapsed milliseconds cut
/// to 64 bits.
pub fn now_millis(elapsed: Option<u128>) -> (ms: u64)
    ensures
        match elapsed {
            None => ms == 0,
            Some(d) => ms == d as u64,
        },
{
    match elapsed {
        None => 0,
        Some(d) => d as u64,
    }
}

/// The last-update times of `projects`, in order.
pub open spec fn update_times(projects: Seq<ProjectInfo>) -> Seq<u64> {
    projects.map_values(|p: ProjectInfo| p.updated_at)
}

/// `after` is `before` rearranged by `order`: its `k`-th project is the
/// `order[k]`-th one of `before`.
pub open spec fn arranged_by(before: Seq<ProjectInfo>, after: Seq<ProjectInfo>, order: Seq<usize>) -> bool {
    &&& after.len() == order.len()
    &&& forall|k: int| 0 <= k < after.len() ==> #[trigger] after[k] == before[order[k] as int]
}

/// `after` lists the projects of `before`, most recently updated first;
/// projects updated at the same time keep their relative order.
pub open spec fn most_recent_first(before: Seq<ProjectInfo>, after: Seq<ProjectInfo>) -> bool {
    exists|order: Seq<usize>|
        is_stable_desc_order(update_times(before), order) && #[trigger] arranged_by(before, after, order)
}

/// Sorts projects for listing: the most recently updated first, ties kept in
/// the order they came in.
pub fn order_by_recency(projects: Vec<ProjectInfo>) -> (sorted: Vec<ProjectInfo>)
    ensures
        most_recent_first(projects@, sorted@),
{
    let ghost before = projects@;
    let n = projects.len();
    let mut keys: Vec<u64> = Vec::new();
    let mut i: usize = 0;
    while i < n
        invariant
            i <= n,
            n == projects@.len(),
            keys@ == update_times(projects@).take(i as int),
        decreases n - i,
    {
        keys.push(projects[i].updated_at);
        proof {
            assert(update_times(projects@).take(i + 1) == update_times(projects@).take(i as int).push(projects@[i as int].updated_at));
        }
        i = i + 1;
    }
    proof {
        assert(update_times(projects@).take(n as int) == update_times(projects@));
    }
    let order = stable_order_desc(&keys);
    // Move the projects into slots so that each can be taken out once.
    let mut rest = projects;
    let mut slots: Vec<Option<ProjectInfo>> = Vec::new();
    while rest.len() > 0
        invariant
            rest@.len() + slots@.len() == n,
            n == before.len(),
            rest@ == before.take(rest@.len() as int),
            forall|k: int| 0 <= k < slots@.len() ==> #[trigger] slots@[k] == Some(before[n - 1 - k]),
        decreases rest@.len(),
    {
        let p = rest.pop().unwrap();
        slots.push(Some(p));
    }
    let mut sorted: Vec<ProjectInfo> = Vec::new();
    let mut k: usize = 0;
    while k < n
        invariant
            k <= n,
            n == before.len(),
            slots@.len() == n,
            is_stable_desc_order(keys@, order@),
            keys@ == update_times(before),
            sorted@.len() == k,
            forall|q: int| 0 <= q < k ==> #[trigger] sorted@[q] == before[order@[q] as int],
            forall|j: int| 0 <= j < n ==> (#[trigger] slots@[n - 1 - j] is Some) == !order@.take(k as int).contains(j as usize),
            forall|j: int| 0 <= j < n && (#[trigger] slots@[n - 1 - j]) is Some ==> slots@[n - 1 - j] == Some(before[j]),
        decreases n - k,
    {
        let j = order[k];
        proof {
            assert(!order@.take(k as int).contains(j)) by {
                if order@.take(k as int).contains(j) {
                    let q = choose|q: int| 0 <= q < k && order@.take(k as int)[q] == j;
                    assert(order@[q] == order@[k as int]);
                }
            }
            assert(slots@[n - 1 - j as int] is Some);
        }
        let slot = n - 1 - j;
        let taken = slots[slot].take();
        let p = taken.unwrap();
        sorted.push(p);
        proof {
            let t0 = order@.take(k as int);
            let t1 = order@.take(k + 1);
            assert(t1 == t0.push(j));
            assert forall|jj: int| 0 <= jj < n implies (#[trigger] slots@[n - 1 - jj] is Some) == !order@.take(k + 1).contains(jj as usize) by {
                if jj == j as int {
                    assert(t1[k as int] == j);
                } else {
                    let x = jj as usize;
                    if t1.contains(x) {
                        let q = choose|q: int| 0 <= q < t1.len() && t1[q] == x;
                        assert(t0[q] == x);
                    }
                    if t0.contains(x) {
                        let q = choose|q: int| 0 <= q < t0.len() && t0[q] == x;
                        assert(t1[q] == x);
                    }
                }
            }
        }
        k = k + 1;
    }
    proof {
        assert(arranged_by(before, sorted@, order@));
    }
    sorted
}

/// The script a loaded project offers for editing: none for a mesh project;
/// for a code project its stored `model.py`, or the default script when that
/// file could not be read.
pub fn project_source(mode: ProjectMode, stored: Option<String>) -> (s: String)
    ensures
        mode == ProjectMode::Mesh ==> s@ == Seq::<char>::empty(),
        mode == ProjectMode::Code ==> s@ == match stored {
            Some(t) => t@,
            None => DEFAULT_SCRIPT@,
        },
{
    match mode {
        ProjectMode::Mesh => String::new(),
        ProjectMode::Code => match stored {
            Some(t) => t,
            None => {
                let mut s = String::new();
                push_str(&mut s, DEFAULT_SCRIPT);
                s
            },
        },
    }
}

/// Whether a project's script may be written: mesh projects have none.
pub fn check_editable(mode: ProjectMode) -> (r: Result<(), String>)
    ensures
        r is Ok <==> mode == ProjectMode::Code,
        r matches Err(e) ==> e@ == MESH_NOT_EDITABLE@,
{
    match mode {
        ProjectMode::Code => Ok(()),
        ProjectMode::Mesh => {
            let mut e = String::new();
            push_str(&mut e, MESH_NOT_EDITABLE);
            Err(e)
        },
    }
}

/// The error for a project id with no project directory.
pub fn missing_project(id: &str) -> (s: String)
    ensures
        s@ == "Project '"@ + id@ + "' does not exist"@,
{
    let mut s = String::new();
    push_str(&mut s, "Project '");
    push_str(&mut s, id);
    push_str(&mut s, "' does not exist");
    s
}

/// The script of a code project made from an imported STEP file at `path`.
pub fn cad_import_script(path: &str) -> (s: String)
    ensures
        s@ == "import cadquery as cq\n\n# Imported CAD model\nresult = cq.importers.importStep(r\""@ + path@
            + "\")\n\nshow_object(result)\n"@,
{
    let mut s = String::new();
    push_str(&mut s, "import cadquery as cq\n\n# Imported CAD model\nresult = cq.importers.importStep(r\"");
    push_str(&mut s, path);
    push_str(&mut s, "\")\n\nshow_object(result)\n");
    s
}

} // verus!
