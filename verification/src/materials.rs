//! Material structures: every set of materials welded together is one structure of
//! the table.  A rebuild gives a structure back the identity it had when its member
//! identities are unchanged.
use vstd::prelude::*;

use crate::cell::Cell;
use crate::cellmap::{CellMap, CellSet};
use crate::connectivity::{
    ids_unique, material_ids, pos_of_id, welded, lemma_structure_holds_start, lemma_structure_of_member, material_structure,
    material_structure_spec,
};
use crate::ids::{BlockId, MaterialWeld, StructureId};
use crate::signals::{cells_sorted, insert_sorted_cell};
use crate::structure::{FactoryActivity, StructureFreedom, StructureKind};
use crate::structure_state::{entry_ok, owners_of_kind, structures_removed, without_owners, StructureState};

verus! {

/// Strictly increasing.
pub open spec fn ids_sorted(s: Seq<u64>) -> bool {
    forall|a: int, b: int| 0 <= a < b < s.len() ==> s[a] < s[b]
}

/// `key` lists, in increasing order, the identities of the materials among `cells`:
/// the key a material structure is recognised by across rebuilds.
pub open spec fn member_key_ok(key: Seq<u64>, m: Map<Cell, BlockId>, cells: Set<Cell>) -> bool {
    &&& ids_sorted(key)
    &&& forall|x: u64| #[trigger] key.contains(x) <==> exists|p: Cell|
        cells.contains(p) && m.contains_key(p) && #[trigger] m[p].0 == x
}

/// Every material has an identity, each its own.
pub open spec fn materials_ok(m: Map<Cell, BlockId>) -> bool {
    &&& ids_unique(m)
    &&& forall|p: Cell| #[trigger] m.contains_key(p) ==> m[p].0 != 0
}

/// Two increasing lists with the same elements are equal.
pub proof fn lemma_sorted_unique(a: Seq<u64>, b: Seq<u64>)
    requires
        ids_sorted(a),
        ids_sorted(b),
        forall|x: u64| a.contains(x) <==> b.contains(x),
    ensures
        a == b,
    decreases a.len(),
{
    if a.len() == 0 {
        if b.len() > 0 {
            assert(b.contains(b[0]));
        }
        assert(a =~= b);
    } else {
        assert(a.contains(a[0]));
        assert(b.len() > 0);
        assert(b.contains(b[0]));
        let ja = choose|j: int| 0 <= j < b.len() && b[j] == a[0];
        let jb = choose|j: int| 0 <= j < a.len() && a[j] == b[0];
        assert(a[0] == b[0]) by {
            if ja > 0 {
                assert(b[0] < b[ja]);
            }
            if jb > 0 {
                assert(a[0] < a[jb]);
            }
        }
        let a1 = a.drop_first();
        let b1 = b.drop_first();
        assert forall|x: u64| a1.contains(x) <==> b1.contains(x) by {
            if a1.contains(x) {
                let j = choose|j: int| 0 <= j < a1.len() && a1[j] == x;
                assert(a[j + 1] == x);
                assert(a.contains(x));
                let k = choose|k: int| 0 <= k < b.len() && b[k] == x;
                if k == 0 {
                    assert(a[0] < a[j + 1]);
                }
                assert(b1[k - 1] == x);
            }
            if b1.contains(x) {
                let j = choose|j: int| 0 <= j < b1.len() && b1[j] == x;
                assert(b[j + 1] == x);
                assert(b.contains(x));
                let k = choose|k: int| 0 <= k < a.len() && a[k] == x;
                if k == 0 {
                    assert(b[0] < b[j + 1]);
                }
                assert(a1[k - 1] == x);
            }
        }
        lemma_sorted_unique(a1, b1);
        assert(a =~= b1.insert(0, b[0]));
        assert(b =~= b1.insert(0, b[0]));
    }
}

pub(crate) fn insert_sorted_id(v: &mut Vec<u64>, x: u64)
    requires
        ids_sorted(old(v)@),
        !old(v)@.contains(x),
    ensures
        ids_sorted(final(v)@),
        forall|y: u64| #[trigger] final(v)@.contains(y) <==> (old(v)@.contains(y) || y == x),
{
    let mut j: usize = v.len();
    while j > 0 && v[j - 1] > x
        invariant
            j <= v@.len(),
            v@ == old(v)@,
            forall|a: int| j <= a < v@.len() ==> x < v@[a],
        decreases j,
    {
        j = j - 1;
    }
    let ghost s0 = v@;
    proof {
        s0.insert_ensures(j as int, x);
        if j > 0 {
            assert(s0[j - 1] != x);
        }
        assert forall|a: int| 0 <= a < j implies s0[a] < x by {
            if a < j - 1 {
                assert(s0[a] < s0[j - 1]);
            }
        }
    }
    v.insert(j, x);
    proof {
        let s1 = v@;
        assert forall|a: int, b: int| 0 <= a < b < s1.len() implies s1[a] < s1[b] by {
            if a < j {
                if b > j {
                    assert(s1[b] == s0[b - 1]);
                }
            } else if a == j {
                assert(s1[b] == s0[b - 1]);
            } else {
                assert(s1[a] == s0[a - 1]);
                assert(s1[b] == s0[b - 1]);
            }
        }
        assert forall|y: u64| #[trigger] s1.contains(y) <==> (s0.contains(y) || y == x) by {
            if s1.contains(y) {
                let a = choose|a: int| 0 <= a < s1.len() && s1[a] == y;
                if a < j {
                    assert(s0[a] == y);
                } else if a > j {
                    assert(s0[a - 1] == y);
                }
            }
            if s0.contains(y) {
                let a = choose|a: int| 0 <= a < s0.len() && s0[a] == y;
                if a < j {
                    assert(s1[a] == y);
                } else {
                    assert(s1[a + 1] == y);
                }
            }
            if y == x {
                assert(s1[j as int] == y);
            }
        }
    }
}

/// The identities of the materials among `cells`, in increasing order.
pub fn material_members(materials: &CellMap<BlockId>, cells: &CellSet) -> (r: Vec<u64>)
    requires
        materials.wf(),
        materials_ok(materials@),
        cells.wf(),
    ensures
        member_key_ok(r@, materials@, cells@),
{
    let ghost m = materials@;
    let list = cells.to_vec();
    proof {
        cells.lemma_elems();
    }
    let mut out: Vec<u64> = Vec::new();
    let mut i: usize = 0;
    while i < list.len()
        invariant
            materials.wf(),
            m == materials@,
            materials_ok(m),
            list@ == cells.elems(),
            cells@ == list@.to_set(),
            list@.no_duplicates(),
            i <= list@.len(),
            ids_sorted(out@),
            forall|x: u64| #[trigger] out@.contains(x) <==> exists|j: int|
                0 <= j < i && m.contains_key(list@[j]) && #[trigger] m[list@[j]].0 == x,
        decreases list@.len() - i,
    {
        let p = list[i];
        match materials.get(p) {
            Some(b) => {
                proof {
                    assert(!out@.contains(b.0)) by {
                        if out@.contains(b.0) {
                            let j = choose|j: int| 0 <= j < i && m.contains_key(list@[j]) && #[trigger] m[list@[j]].0 == b.0;
                            assert(list@[j] != list@[i as int]);
                            assert(m[list@[j]] != m[p]);
                        }
                    }
                }
                insert_sorted_id(&mut out, b.0);
                proof {
                    assert forall|x: u64| #[trigger] out@.contains(x) <==> exists|j: int|
                        0 <= j < i + 1 && m.contains_key(list@[j]) && #[trigger] m[list@[j]].0 == x by {
                        if x == b.0 {
                            assert(m[list@[i as int]].0 == x);
                        }
                    }
                }
            },
            None => {
                proof {
                    assert forall|x: u64| #[trigger] out@.contains(x) <==> exists|j: int|
                        0 <= j < i + 1 && m.contains_key(list@[j]) && #[trigger] m[list@[j]].0 == x by {
                        if exists|j: int| 0 <= j < i + 1 && m.contains_key(list@[j]) && #[trigger] m[list@[j]].0 == x {
                            let j = choose|j: int| 0 <= j < i + 1 && m.contains_key(list@[j]) && #[trigger] m[list@[j]].0 == x;
                            assert(j < i);
                        }
                    }
                }
            },
        }
        i = i + 1;
    }
    proof {
        assert forall|x: u64| #[trigger] out@.contains(x) <==> exists|p: Cell|
            cells@.contains(p) && m.contains_key(p) && #[trigger] m[p].0 == x by {
            if out@.contains(x) {
                let j = choose|j: int| 0 <= j < list@.len() && m.contains_key(list@[j]) && #[trigger] m[list@[j]].0 == x;
                assert(cells@.contains(list@[j]));
            }
            if exists|p: Cell| cells@.contains(p) && m.contains_key(p) && #[trigger] m[p].0 == x {
                let p = choose|p: Cell| cells@.contains(p) && m.contains_key(p) && #[trigger] m[p].0 == x;
                assert(list@.contains(p));
                let j = choose|j: int| 0 <= j < list@.len() && list@[j] == p;
                assert(m[list@[j]].0 == x);
            }
        }
    }
    out
}

pub(crate) fn same_ids(a: &Vec<u64>, b: &Vec<u64>) -> (r: bool)
    ensures
        r == (a@ == b@),
{
    if a.len() != b.len() {
        return false;
    }
    let mut i: usize = 0;
    while i < a.len()
        invariant
            a@.len() == b@.len(),
            i <= a@.len(),
            forall|j: int| 0 <= j < i ==> a@[j] == b@[j],
        decreases a@.len() - i,
    {
        if a[i] != b[i] {
            return false;
        }
        i = i + 1;
    }
    assert(a@ =~= b@);
    true
}

/// The identity remembered for the member key `key`, if any.
fn remembered_id(previous: &[(Vec<u64>, StructureId)], key: &Vec<u64>) -> (r: Option<StructureId>)
    ensures
        r matches Some(id) ==> exists|i: int| 0 <= i < previous@.len() && (#[trigger] previous@[i]).0@ == key@
            && previous@[i].1 == id,
        r is None ==> forall|i: int| 0 <= i < previous@.len() ==> (#[trigger] previous@[i]).0@ != key@,
{
    let mut i: usize = 0;
    while i < previous.len()
        invariant
            i <= previous@.len(),
            forall|j: int| 0 <= j < i ==> (#[trigger] previous@[j]).0@ != key@,
        decreases previous@.len() - i,
    {
        if same_ids(&previous[i].0, key) {
            return Some(previous[i].1);
        }
        i = i + 1;
    }
    None
}

/// The gravity supports remembered for the identity `id`: those of its first entry in
/// `sup`, none when it has no entry.
pub open spec fn support_of(sup: Seq<(StructureId, Vec<(Cell, Cell)>)>, id: StructureId) -> Seq<(Cell, Cell)>
    decreases sup.len(),
{
    if sup.len() == 0 {
        Seq::empty()
    } else if sup[0].0 == id {
        sup[0].1@
    } else {
        support_of(sup.drop_first(), id)
    }
}

/// A copy of the contacts `c`.
pub(crate) fn copy_contacts(c: &Vec<(Cell, Cell)>) -> (r: Vec<(Cell, Cell)>)
    ensures
        r@ == c@,
{
    let mut r: Vec<(Cell, Cell)> = Vec::new();
    let mut i: usize = 0;
    while i < c.len()
        invariant
            i <= c@.len(),
            r@ == c@.take(i as int),
        decreases c@.len() - i,
    {
        r.push(c[i]);
        proof {
            assert(c@.take(i + 1) =~= c@.take(i as int).push(c@[i as int]));
        }
        i = i + 1;
    }
    proof {
        assert(c@.take(i as int) =~= c@);
    }
    r
}

/// The gravity supports remembered for `id` (see [`support_of`]).
fn remembered_support(sup: &[(StructureId, Vec<(Cell, Cell)>)], id: StructureId) -> (r: Vec<(Cell, Cell)>)
    ensures
        r@ == support_of(sup@, id),
{
    let mut i: usize = 0;
    proof {
        assert(sup@.subrange(0, sup@.len() as int) =~= sup@);
    }
    while i < sup.len()
        invariant
            i <= sup@.len(),
            support_of(sup@, id) == support_of(sup@.subrange(i as int, sup@.len() as int), id),
        decreases sup@.len() - i,
    {
        let ghost rest = sup@.subrange(i as int, sup@.len() as int);
        proof {
            assert(rest[0] == sup@[i as int]);
            assert(rest.drop_first() =~= sup@.subrange(i + 1, sup@.len() as int));
        }
        if sup[i].0.0 == id.0 {
            proof {
                assert(sup@[i as int].0 == id);
            }
            return copy_contacts(&sup[i].1);
        }
        i = i + 1;
    }
    proof {
        assert(sup@.subrange(i as int, sup@.len() as int) =~= Seq::<(StructureId, Vec<(Cell, Cell)>)>::empty());
    }
    Vec::new()
}

/// Some remembered key matches the members `cells`.
pub open spec fn remembered_any(prev: Seq<(Vec<u64>, StructureId)>, m: Map<Cell, BlockId>, cells: Set<Cell>) -> bool {
    exists|i: int| 0 <= i < prev.len() && member_key_ok((#[trigger] prev[i]).0@, m, cells)
}

/// A remembered key matching the members `cells` names `id`.
pub open spec fn remembered_as(
    prev: Seq<(Vec<u64>, StructureId)>,
    m: Map<Cell, BlockId>,
    cells: Set<Cell>,
    id: StructureId,
) -> bool {
    exists|i: int| 0 <= i < prev.len() && member_key_ok((#[trigger] prev[i]).0@, m, cells) && prev[i].1 == id
}

/// Remembered keys and identities are each used once, and the identities are old
/// ones that the table no longer holds.
pub open spec fn remembered_ok(prev: Seq<(Vec<u64>, StructureId)>, st: StructureState) -> bool {
    &&& forall|i: int, j: int| 0 <= i < prev.len() && 0 <= j < prev.len() && i != j ==> (#[trigger] prev[i]).0@
        != (#[trigger] prev[j]).0@ && prev[i].1 != prev[j].1
    &&& forall|i: int| 0 <= i < prev.len() ==> (#[trigger] prev[i]).1.0 != 0 && prev[i].1.0 <= st.last_id()
        && !st.table().contains_key(prev[i].1.0)
}

/// `p` belongs to the welded structure of one of the cells `done`.
pub open spec fn class_done(m: Map<Cell, BlockId>, w: Seq<MaterialWeld>, done: Set<Cell>, p: Cell) -> bool {
    exists|s: Cell| #[trigger] done.contains(s) && material_structure_spec(m, w, s).contains(p)
}

/// A structure added by the material rebuild: a material structure, active and free,
/// over one welded class, under its remembered identity when its member key was
/// remembered and a fresh one otherwise.
pub open spec fn new_material_entry(
    st: StructureState,
    base: StructureState,
    m: Map<Cell, BlockId>,
    w: Seq<MaterialWeld>,
    prev: Seq<(Vec<u64>, StructureId)>,
    sup: Seq<(StructureId, Vec<(Cell, Cell)>)>,
    k: u64,
) -> bool {
    let s = st.table()[k];
    &&& s.kind == StructureKind::Material
    &&& s.activity == FactoryActivity::Active
    &&& s.freedom == StructureFreedom::All
    &&& s.scene_touching@ == Set::<Cell>::empty()
    &&& s.deform_groups@.len() == 0
    &&& s.head_of@.len() == 0
    &&& exists|p: Cell| m.contains_key(p) && #[trigger] s.positions@.contains(p) && s.positions@ == material_structure_spec(m, w, p)
    &&& s.gravity_support@ == support_of(sup, StructureId(k))
    &&& if remembered_any(prev, m, s.positions@) {
        remembered_as(prev, m, s.positions@, StructureId(k))
    } else {
        k > base.last_id()
    }
}

/// The material rebuild after handling the start cells `done` (`n` of them).
pub open spec fn material_progress(
    st: StructureState,
    base: StructureState,
    m: Map<Cell, BlockId>,
    w: Seq<MaterialWeld>,
    prev: Seq<(Vec<u64>, StructureId)>,
    sup: Seq<(StructureId, Vec<(Cell, Cell)>)>,
    done: Set<Cell>,
    n: nat,
) -> bool {
    &&& st.wf()
    &&& base.last_id() <= st.last_id() <= base.last_id() + n
    &&& st.held() == base.held()
    &&& st.moving() == base.moving()
    &&& st.head_counter() == base.head_counter()
    &&& st.acceptors() == base.acceptors()
    &&& forall|k: u64| #[trigger] base.table().contains_key(k) ==> st.table().contains_key(k) && st.table()[k] == base.table()[k]
    &&& forall|k: u64| #[trigger] st.table().contains_key(k) && !base.table().contains_key(k) ==> new_material_entry(st, base, m, w, prev, sup, k)
    &&& forall|p: Cell| #[trigger] st.index().contains_key(p) <==> (base.index().contains_key(p) || (m.contains_key(p) && class_done(m, w, done, p)))
    &&& forall|p: Cell| #[trigger] done.contains(p) ==> m.contains_key(p)
    &&& forall|i: int| 0 <= i < prev.len() && #[trigger] st.table().contains_key(prev[i].1.0) ==> member_key_ok(
        prev[i].0@,
        m,
        st.table()[prev[i].1.0].positions@,
    )
}

/// The materials among `dom` form whole welded classes: with a material, `dom` holds
/// its whole class.
pub open spec fn classes_whole(m: Map<Cell, BlockId>, w: Seq<MaterialWeld>, dom: Set<Cell>) -> bool {
    forall|p: Cell, q: Cell| #![trigger dom.contains(p), material_structure_spec(m, w, p).contains(q)]
        m.contains_key(p) && dom.contains(p) && material_structure_spec(m, w, p).contains(q) ==> dom.contains(q)
}

/// Two welded classes recognised by the same key are the same class.
proof fn lemma_same_key_same_class(
    m: Map<Cell, BlockId>,
    w: Seq<MaterialWeld>,
    key: Seq<u64>,
    s: Cell,
    q: Cell,
)
    requires
        materials_ok(m),
        m.contains_key(s),
        m.contains_key(q),
        member_key_ok(key, m, material_structure_spec(m, w, s)),
        member_key_ok(key, m, material_structure_spec(m, w, q)),
    ensures
        material_structure_spec(m, w, q).contains(s),
{
    lemma_structure_holds_start(m, w, q);
    let x = m[q].0;
    assert(key.contains(x));
    let p = choose|p: Cell| material_structure_spec(m, w, s).contains(p) && m.contains_key(p) && #[trigger] m[p].0 == x;
    if p != q {
        assert(m[p] != m[q]);
    }
    lemma_structure_of_member(m, w, s, q);
    lemma_structure_holds_start(m, w, s);
}

/// One start cell of the material rebuild: registers its welded class unless it was
/// registered already.
#[verifier::rlimit(100)]
fn handle_start(
    st: &mut StructureState,
    materials: &CellMap<BlockId>,
    welds: &[MaterialWeld],
    previous: &[(Vec<u64>, StructureId)],
    support: &[(StructureId, Vec<(Cell, Cell)>)],
    start: Cell,
    Ghost(base): Ghost<StructureState>,
    Ghost(done): Ghost<Set<Cell>>,
    Ghost(n): Ghost<nat>,
)
    requires
        materials.wf(),
        materials_ok(materials@),
        classes_whole(materials@, welds@, base.index().dom()),
        remembered_ok(previous@, base),
        material_progress(*old(st), base, materials@, welds@, previous@, support@, done, n),
        materials@.contains_key(start),
        base.last_id() + n + 1 <= u64::MAX,
    ensures
        material_progress(*final(st), base, materials@, welds@, previous@, support@, done.insert(start), n + 1),
{
    let ghost m = materials@;
    let ghost w = welds@;
    let ghost prev = previous@;
    let ghost sup = support@;
    let ghost done2 = done.insert(start);
    let ghost st0 = *st;
    proof {
        st0.lemma_wf_facts();
    }
    match st.id_at(start) {
        Some(_) => {
            proof {
                assert forall|p: Cell| class_done(m, w, done, p) implies class_done(m, w, done2, p) by {
                    let s1 = choose|s1: Cell| #[trigger] done.contains(s1) && material_structure_spec(m, w, s1).contains(p);
                    assert(done2.contains(s1));
                }
                if base.index().contains_key(start) {
                    assert forall|p: Cell| #[trigger] class_done(m, w, done2, p) && !class_done(m, w, done, p) implies base.index().contains_key(p) by {
                        let s1 = choose|s1: Cell| #[trigger] done2.contains(s1) && material_structure_spec(m, w, s1).contains(p);
                        assert(s1 == start);
                        assert(base.index().dom().contains(start));
                    }
                } else {
                    assert(class_done(m, w, done, start));
                    let s0 = choose|s0: Cell| #[trigger] done.contains(s0) && material_structure_spec(m, w, s0).contains(start);
                    lemma_structure_of_member(m, w, s0, start);
                    assert forall|p: Cell| class_done(m, w, done2, p) implies class_done(m, w, done, p) by {
                        let s1 = choose|s1: Cell| #[trigger] done2.contains(s1) && material_structure_spec(m, w, s1).contains(p);
                        if s1 == start {
                            assert(done.contains(s0) && material_structure_spec(m, w, s0).contains(p));
                        }
                    }
                }
                assert forall|p: Cell| #[trigger] st0.index().contains_key(p) <==> (base.index().contains_key(p) || (m.contains_key(p)
                    && class_done(m, w, done2, p))) by {
                    if class_done(m, w, done2, p) && !class_done(m, w, done, p) {
                        let s1 = choose|s1: Cell| #[trigger] done2.contains(s1) && material_structure_spec(m, w, s1).contains(p);
                        assert(s1 == start);
                    }
                }
            }
        },
        None => {
            let positions = material_structure(materials, welds, start);
            let members = material_members(materials, &positions);
            let ghost cls = material_structure_spec(m, w, start);
            proof {
                lemma_structure_holds_start(m, w, start);
                assert forall|q: Cell| positions@.contains(q) implies !st0.index().contains_key(q) by {
                    if st0.index().contains_key(q) {
                        assert(m.contains_key(q));
                        if base.index().contains_key(q) {
                            lemma_structure_of_member(m, w, start, q);
                            assert(material_structure_spec(m, w, q).contains(start));
                            assert(base.index().dom().contains(q));
                            assert(base.index().contains_key(start));
                        }
                        assert(class_done(m, w, done, q));
                        let s1 = choose|s1: Cell| #[trigger] done.contains(s1) && material_structure_spec(m, w, s1).contains(q);
                        lemma_structure_of_member(m, w, s1, q);
                        lemma_structure_of_member(m, w, start, q);
                        assert(material_structure_spec(m, w, s1).contains(start));
                        assert(class_done(m, w, done, start));
                    }
                }
            }
            let remembered = remembered_id(previous, &members);
            let ghost new_id: u64;
            let used = match remembered {
                Some(id) => {
                    proof {
                        let i = choose|i: int| 0 <= i < prev.len() && (#[trigger] prev[i]).0@ == members@ && prev[i].1 == id;
                        assert(!st0.table().contains_key(id.0)) by {
                            if st0.table().contains_key(id.0) {
                                assert(!base.table().contains_key(id.0));
                                assert(new_material_entry(st0, base, m, w, prev, sup, id.0));
                                let pos1 = st0.table()[id.0].positions@;
                                assert(member_key_ok(prev[i].0@, m, pos1));
                                let q = choose|q: Cell| m.contains_key(q) && #[trigger] pos1.contains(q) && pos1 == material_structure_spec(m, w, q);
                                lemma_same_key_same_class(m, w, members@, start, q);
                                st0.lemma_wf_facts();
                                let sid = st0.table()[id.0].id;
                                assert(crate::structure_state::entry_ok(id.0, st0.table()[id.0], st0.last_id(), st0.index()));
                                assert(st0.index().contains_key(start));
                            }
                        }
                        new_id = id.0;
                    }
                    st.register_structure(id, StructureKind::Material, positions, FactoryActivity::Active, StructureFreedom::All, CellSet::new());
                    id
                },
                None => {
                    let id = st.add_structure(StructureKind::Material, positions, FactoryActivity::Active, StructureFreedom::All, CellSet::new());
                    proof {
                        new_id = id.0;
                    }
                    id
                },
            };
            let ghost mid = *st;
            let kept = remembered_support(support, used);
            st.set_gravity_support(used, kept);
            proof {
                let st1 = *st;
                assert(used.0 == new_id);
                assert(st1.table()[new_id].positions == mid.table()[new_id].positions);
                assert forall|k: u64| k != new_id && #[trigger] mid.table().contains_key(k) implies st1.table()[k] == mid.table()[k] by {}
                assert(st1.table().contains_key(new_id));
                assert(st1.table()[new_id].positions@ == cls);
                assert(!st0.table().contains_key(new_id));
                // the new entry
                assert(new_material_entry(st1, base, m, w, prev, sup, new_id)) by {
                    assert(cls.contains(start));
                    match remembered {
                        Some(id) => {
                            let i = choose|i: int| 0 <= i < prev.len() && (#[trigger] prev[i]).0@ == members@ && prev[i].1 == id;
                            assert(member_key_ok(prev[i].0@, m, cls));
                            assert(remembered_any(prev, m, cls));
                        },
                        None => {
                            assert(!remembered_any(prev, m, cls)) by {
                                if remembered_any(prev, m, cls) {
                                    let i = choose|i: int| 0 <= i < prev.len() && member_key_ok((#[trigger] prev[i]).0@, m, cls);
                                    lemma_sorted_unique(prev[i].0@, members@);
                                }
                            }
                        },
                    }
                }
                assert forall|k: u64| #[trigger] st1.table().contains_key(k) && !base.table().contains_key(k) implies new_material_entry(st1, base, m, w, prev, sup, k) by {
                    if k != new_id {
                        assert(st0.table().contains_key(k));
                        assert(new_material_entry(st0, base, m, w, prev, sup, k));
                        assert(st1.table()[k] == st0.table()[k]);
                    }
                }
                assert forall|k: u64| #[trigger] base.table().contains_key(k) implies st1.table().contains_key(k) && st1.table()[k] == base.table()[k] by {
                    assert(st0.table().contains_key(k));
                    assert(k != new_id);
                }
                assert forall|p: Cell| #[trigger] st1.index().contains_key(p) <==> (base.index().contains_key(p) || (m.contains_key(p) && class_done(m, w, done2, p))) by {
                    if cls.contains(p) {
                        assert(done2.contains(start));
                    }
                    if class_done(m, w, done2, p) && !class_done(m, w, done, p) {
                        let s1 = choose|s1: Cell| #[trigger] done2.contains(s1) && material_structure_spec(m, w, s1).contains(p);
                        assert(s1 == start);
                    }
                    if class_done(m, w, done, p) {
                        let s1 = choose|s1: Cell| #[trigger] done.contains(s1) && material_structure_spec(m, w, s1).contains(p);
                        assert(done2.contains(s1));
                    }
                }
                assert forall|i: int| 0 <= i < prev.len() && #[trigger] st1.table().contains_key(prev[i].1.0) implies member_key_ok(
                    prev[i].0@,
                    m,
                    st1.table()[prev[i].1.0].positions@,
                ) by {
                    if prev[i].1.0 == new_id {
                        match remembered {
                            Some(id) => {
                                let j = choose|j: int| 0 <= j < prev.len() && (#[trigger] prev[j]).0@ == members@ && prev[j].1 == id;
                                if i != j {
                                    assert(prev[i].1 != prev[j].1);
                                    assert(StructureId(prev[i].1.0) == prev[i].1);
                                }
                            },
                            None => {
                                assert(new_id > base.last_id());
                            },
                        }
                    } else {
                        assert(st0.table().contains_key(prev[i].1.0));
                    }
                }
            }
        },
    }
}

/// `st` is `base` with every welded class of the materials registered as a material
/// structure (see [`new_material_entry`]); the structures of `base` are kept.
pub open spec fn materials_registered(
    base: StructureState,
    st: StructureState,
    m: Map<Cell, BlockId>,
    w: Seq<MaterialWeld>,
    prev: Seq<(Vec<u64>, StructureId)>,
    sup: Seq<(StructureId, Vec<(Cell, Cell)>)>,
) -> bool {
    &&& st.wf()
    &&& st.held() == base.held()
    &&& st.moving() == base.moving()
    &&& st.head_counter() == base.head_counter()
    &&& st.acceptors() == base.acceptors()
    &&& forall|k: u64| #[trigger] base.table().contains_key(k) ==> st.table().contains_key(k) && st.table()[k] == base.table()[k]
    &&& forall|k: u64| #[trigger] st.table().contains_key(k) && !base.table().contains_key(k) ==> new_material_entry(st, base, m, w, prev, sup, k)
    &&& forall|p: Cell| #[trigger] st.index().contains_key(p) <==> (base.index().contains_key(p) || m.contains_key(p))
    &&& forall|p: Cell| #[trigger] m.contains_key(p) ==> !base.table().contains_key(st.index()[p].0)
        && st.table()[st.index()[p].0].positions@ == material_structure_spec(m, w, p)
}

/// Registers a material structure for every welded class of the materials, in the
/// order of the classes' lowest cells (by x, then y, then z); a class whose member key
/// is remembered gets its remembered identity back, any other a fresh one.
pub fn append_material_structures(
    st: &mut StructureState,
    materials: &CellMap<BlockId>,
    welds: &[MaterialWeld],
    previous: &[(Vec<u64>, StructureId)],
    support: &[(StructureId, Vec<(Cell, Cell)>)],
)
    requires
        old(st).wf(),
        materials.wf(),
        materials_ok(materials@),
        forall|p: Cell| #[trigger] materials@.contains_key(p) ==> !old(st).index().contains_key(p),
        remembered_ok(previous@, *old(st)),
        old(st).last_id() + materials@.dom().len() <= u64::MAX,
    ensures
        materials_registered(*old(st), *final(st), materials@, welds@, previous@, support@),
{
    let ghost m = materials@;
    let ghost w = welds@;
    let ghost prev = previous@;
    let ghost sup = support@;
    let ghost base = *st;
    proof {
        base.lemma_wf_facts();
        materials.lemma_view_finite();
    }
    let keys = materials.keys();
    let mut starts: Vec<Cell> = Vec::new();
    let mut i: usize = 0;
    while i < keys.len()
        invariant
            i <= keys@.len(),
            keys@.no_duplicates(),
            cells_sorted(starts@),
            starts@.to_set() == keys@.take(i as int).to_set(),
        decreases keys@.len() - i,
    {
        let k = keys[i];
        proof {
            keys@.take(i as int).lemma_push_to_set_commute(k);
            assert(keys@.take(i + 1) =~= keys@.take(i as int).push(k));
            assert(!starts@.contains(k)) by {
                if starts@.contains(k) {
                    assert(starts@.to_set().contains(k));
                    let t = choose|t: int| 0 <= t < i && keys@.take(i as int)[t] == k;
                    assert(keys@[t] == keys@[i as int]);
                }
            }
        }
        insert_sorted_cell(&mut starts, k);
        i = i + 1;
    }
    proof {
        assert(keys@.take(i as int) =~= keys@);
        assert(starts@.no_duplicates()) by {
            assert forall|a: int, b: int| 0 <= a < starts@.len() && 0 <= b < starts@.len() && a != b implies starts@[a] != starts@[b] by {
                if a < b {
                    assert(crate::signals::cell_lt(starts@[a], starts@[b]));
                } else {
                    assert(crate::signals::cell_lt(starts@[b], starts@[a]));
                }
            }
        }
        starts@.unique_seq_to_set();
        keys@.unique_seq_to_set();
        assert(starts@.to_set() == m.dom());
        assert(starts@.take(0).to_set() =~= Set::<Cell>::empty());
        assert forall|p: Cell| #[trigger] st.index().contains_key(p) <==> (base.index().contains_key(p) || (m.contains_key(p)
            && class_done(m, w, Set::<Cell>::empty(), p))) by {}
    }
    let mut j: usize = 0;
    while j < starts.len()
        invariant
            materials.wf(),
            m == materials@,
            w == welds@,
            prev == previous@,
            sup == support@,
            materials_ok(m),
            forall|p: Cell| #[trigger] m.contains_key(p) ==> !base.index().contains_key(p),
            remembered_ok(prev, base),
            base.last_id() + m.dom().len() <= u64::MAX,
            starts@.to_set() == m.dom(),
            starts@.len() == m.dom().len(),
            j <= starts@.len(),
            material_progress(*st, base, m, w, prev, sup, starts@.take(j as int).to_set(), j as nat),
        decreases starts@.len() - j,
    {
        let c = starts[j];
        proof {
            assert(starts@.to_set().contains(c));
            starts@.take(j as int).lemma_push_to_set_commute(c);
            assert(starts@.take(j + 1) =~= starts@.take(j as int).push(c));
        }
        proof {
            assert(classes_whole(m, w, base.index().dom()));
        }
        handle_start(st, materials, welds, previous, support, c, Ghost(base), Ghost(starts@.take(j as int).to_set()), Ghost(j as nat));
        j = j + 1;
    }
    proof {
        assert(starts@.take(j as int) =~= starts@);
        let st1 = *st;
        st1.lemma_wf_facts();
        assert forall|p: Cell| #[trigger] st1.index().contains_key(p) <==> (base.index().contains_key(p) || m.contains_key(p)) by {
            if m.contains_key(p) {
                lemma_structure_holds_start(m, w, p);
                assert(starts@.to_set().contains(p));
                assert(class_done(m, w, m.dom(), p));
            }
        }
        assert forall|p: Cell| #[trigger] m.contains_key(p) implies !base.table().contains_key(st1.index()[p].0)
            && st1.table()[st1.index()[p].0].positions@ == material_structure_spec(m, w, p) by {
            let k = st1.index()[p].0;
            assert(st1.index().contains_key(p));
            assert(st1.table().contains_key(k));
            assert(st1.table()[k].positions@.contains(p));
            if base.table().contains_key(k) {
                assert(st1.table()[k] == base.table()[k]);
                assert(crate::structure_state::entry_ok(k, base.table()[k], base.last_id(), base.index()));
            }
            assert(new_material_entry(st1, base, m, w, prev, sup, k));
            let q = choose|q: Cell| m.contains_key(q) && #[trigger] st1.table()[k].positions@.contains(q)
                && st1.table()[k].positions@ == material_structure_spec(m, w, q);
            lemma_structure_of_member(m, w, q, p);
        }
    }
}

/// The cells of `cells` in increasing (x, y, z) order.
fn sorted_cells(cells: &CellSet) -> (r: Vec<Cell>)
    requires
        cells.wf(),
    ensures
        cells_sorted(r@),
        r@.no_duplicates(),
        r@.to_set() == cells@,
        r@.len() == cells@.len(),
{
    let list = cells.to_vec();
    proof {
        cells.lemma_elems();
    }
    let mut out: Vec<Cell> = Vec::new();
    let mut i: usize = 0;
    while i < list.len()
        invariant
            i <= list@.len(),
            list@.no_duplicates(),
            cells_sorted(out@),
            out@.to_set() == list@.take(i as int).to_set(),
        decreases list@.len() - i,
    {
        let k = list[i];
        proof {
            list@.take(i as int).lemma_push_to_set_commute(k);
            assert(list@.take(i + 1) =~= list@.take(i as int).push(k));
            assert(!out@.contains(k)) by {
                if out@.contains(k) {
                    assert(out@.to_set().contains(k));
                    let t = choose|t: int| 0 <= t < i && list@.take(i as int)[t] == k;
                    assert(list@[t] == list@[i as int]);
                }
            }
        }
        insert_sorted_cell(&mut out, k);
        i = i + 1;
    }
    proof {
        assert(list@.take(i as int) =~= list@);
        assert(out@.no_duplicates()) by {
            assert forall|a: int, b: int| 0 <= a < out@.len() && 0 <= b < out@.len() && a != b implies out@[a] != out@[b] by {
                if a < b {
                    assert(crate::signals::cell_lt(out@[a], out@[b]));
                } else {
                    assert(crate::signals::cell_lt(out@[b], out@[a]));
                }
            }
        }
        out@.unique_seq_to_set();
    }
    out
}

/// The material cells among `starts`.
pub open spec fn material_starts(m: Map<Cell, BlockId>, starts: Seq<Cell>) -> Set<Cell> {
    Set::new(|c: Cell| starts.contains(c) && m.contains_key(c))
}

proof fn lemma_material_starts_step(m: Map<Cell, BlockId>, starts: Seq<Cell>, j: int)
    requires
        0 <= j < starts.len(),
    ensures
        material_starts(m, starts.take(j + 1)) == (if m.contains_key(starts[j]) {
            material_starts(m, starts.take(j)).insert(starts[j])
        } else {
            material_starts(m, starts.take(j))
        }),
{
    let c = starts[j];
    assert forall|q: Cell| starts.take(j + 1).contains(q) <==> (starts.take(j).contains(q) || q == c) by {
        if starts.take(j + 1).contains(q) && q != c {
            let t = choose|t: int| 0 <= t < j + 1 && #[trigger] starts.take(j + 1)[t] == q;
            assert(starts.take(j)[t] == q);
        }
        if starts.take(j).contains(q) {
            let t = choose|t: int| 0 <= t < j && #[trigger] starts.take(j)[t] == q;
            assert(starts.take(j + 1)[t] == q);
        }
        if q == c {
            assert(starts.take(j + 1)[j] == c);
        }
    }
    if m.contains_key(c) {
        assert forall|q: Cell| material_starts(m, starts.take(j + 1)).contains(q) <==> material_starts(m, starts.take(j)).insert(c).contains(q) by {
            assert(starts.take(j + 1).contains(q) <==> (starts.take(j).contains(q) || q == c));
        }
        assert(material_starts(m, starts.take(j + 1)) =~= material_starts(m, starts.take(j)).insert(c));
    } else {
        assert forall|q: Cell| material_starts(m, starts.take(j + 1)).contains(q) <==> material_starts(m, starts.take(j)).contains(q) by {
            assert(starts.take(j + 1).contains(q) <==> (starts.take(j).contains(q) || q == c));
        }
        assert(material_starts(m, starts.take(j + 1)) =~= material_starts(m, starts.take(j)));
    }
}

/// Registers the welded class of each material cell of `starts`, taken in the order
/// given, unless a structure already holds it (see [`material_progress`]).  The
/// materials already held must form whole classes.
fn append_material_at_starts(
    st: &mut StructureState,
    materials: &CellMap<BlockId>,
    welds: &[MaterialWeld],
    previous: &[(Vec<u64>, StructureId)],
    support: &[(StructureId, Vec<(Cell, Cell)>)],
    starts: &Vec<Cell>,
)
    requires
        old(st).wf(),
        materials.wf(),
        materials_ok(materials@),
        classes_whole(materials@, welds@, old(st).index().dom()),
        remembered_ok(previous@, *old(st)),
        old(st).last_id() + starts@.len() <= u64::MAX,
    ensures
        material_progress(*final(st), *old(st), materials@, welds@, previous@, support@, material_starts(materials@, starts@), starts@.len()),
{
    let ghost m = materials@;
    let ghost w = welds@;
    let ghost prev = previous@;
    let ghost sup = support@;
    let ghost base = *st;
    proof {
        assert(material_starts(m, starts@.take(0)) =~= Set::<Cell>::empty());
        assert forall|p: Cell| #[trigger] st.index().contains_key(p) <==> (base.index().contains_key(p) || (m.contains_key(p)
            && class_done(m, w, Set::<Cell>::empty(), p))) by {}
    }
    let mut j: usize = 0;
    while j < starts.len()
        invariant
            materials.wf(),
            m == materials@,
            w == welds@,
            prev == previous@,
            sup == support@,
            materials_ok(m),
            classes_whole(m, w, base.index().dom()),
            remembered_ok(prev, base),
            base.last_id() + starts@.len() <= u64::MAX,
            j <= starts@.len(),
            material_progress(*st, base, m, w, prev, sup, material_starts(m, starts@.take(j as int)), j as nat),
        decreases starts@.len() - j,
    {
        let c = starts[j];
        let ghost done = material_starts(m, starts@.take(j as int));
        proof {
            lemma_material_starts_step(m, starts@, j as int);
        }
        if materials.contains_key(c) {
            handle_start(st, materials, welds, previous, support, c, Ghost(base), Ghost(done), Ghost(j as nat));
        }
        j = j + 1;
    }
    proof {
        assert(starts@.take(j as int) =~= starts@);
    }
}

/// `p` and `q` hold materials, with identities, welded together.
pub open spec fn weld_partner(m: Map<Cell, BlockId>, w: Seq<MaterialWeld>, p: Cell, q: Cell) -> bool {
    &&& m.contains_key(p)
    &&& m.contains_key(q)
    &&& m[p].0 != 0
    &&& m[q].0 != 0
    &&& welded(w, m[p].0, m[q].0)
}

/// The cells an edit at `changed` touches among the materials: the changed cells and
/// the materials welded to a changed material.
pub open spec fn material_touched(m: Map<Cell, BlockId>, w: Seq<MaterialWeld>, changed: Set<Cell>) -> Set<Cell> {
    Set::new(|q: Cell| changed.contains(q) || exists|p: Cell| #[trigger] changed.contains(p) && weld_partner(m, w, p, q))
}

/// The material cells among `cells`.
pub open spec fn materials_among(m: Map<Cell, BlockId>, cells: Set<Cell>) -> Set<Cell> {
    Set::new(|c: Cell| cells.contains(c) && m.contains_key(c))
}

/// Notes the touched cell `q`: a seed when it holds a material, its owner when that is a
/// material structure.
fn note_touched(
    st: &StructureState,
    materials: &CellMap<BlockId>,
    seeds: &mut CellSet,
    stale: &mut Vec<StructureId>,
    q: Cell,
    Ghost(cells): Ghost<Set<Cell>>,
)
    requires
        st.wf(),
        materials.wf(),
        old(seeds).wf(),
        old(seeds)@ == materials_among(materials@, cells),
        old(stale)@.no_duplicates(),
        old(stale)@.to_set() == owners_of_kind(*st, cells, StructureKind::Material),
    ensures
        final(seeds).wf(),
        final(seeds)@ == materials_among(materials@, cells.insert(q)),
        final(stale)@.no_duplicates(),
        final(stale)@.to_set() == owners_of_kind(*st, cells.insert(q), StructureKind::Material),
{
    if materials.contains_key(q) {
        seeds.insert(q);
    }
    st.note_owner(stale, q, StructureKind::Material, Ghost(cells));
    proof {
        assert(seeds@ =~= materials_among(materials@, cells.insert(q)));
    }
}

/// Notes the materials welded to the material at `pos` (see [`note_touched`]).
fn note_weld_partners(
    st: &StructureState,
    materials: &CellMap<BlockId>,
    welds: &[MaterialWeld],
    seeds: &mut CellSet,
    stale: &mut Vec<StructureId>,
    pos: Cell,
    Ghost(cells): Ghost<Set<Cell>>,
)
    requires
        st.wf(),
        materials.wf(),
        materials_ok(materials@),
        old(seeds).wf(),
        old(seeds)@ == materials_among(materials@, cells),
        old(stale)@.no_duplicates(),
        old(stale)@.to_set() == owners_of_kind(*st, cells, StructureKind::Material),
    ensures
        final(seeds).wf(),
        final(seeds)@ == materials_among(materials@, cells + Set::new(|q: Cell| weld_partner(materials@, welds@, pos, q))),
        final(stale)@.no_duplicates(),
        final(stale)@.to_set() == owners_of_kind(*st, cells + Set::new(|q: Cell| weld_partner(materials@, welds@, pos, q)), StructureKind::Material),
{
    let ghost m = materials@;
    let ghost w = welds@;
    let ghost mut got: Set<Cell> = cells;
    let bid = match materials.get(pos) {
        Some(b) => b,
        None => {
            proof {
                assert(cells + Set::new(|q: Cell| weld_partner(m, w, pos, q)) =~= cells);
            }
            return;
        },
    };
    proof {
        assert(bid.0 != 0);
        assert(got =~= cells + Set::new(|q: Cell| weld_partner(m, w.take(0), pos, q))) by {
            assert forall|q: Cell| !weld_partner(m, w.take(0), pos, q) by {}
        }
    }
    let mut k: usize = 0;
    while k < welds.len()
        invariant
            st.wf(),
            materials.wf(),
            materials_ok(m),
            m == materials@,
            w == welds@,
            m.contains_key(pos),
            m[pos] == bid,
            bid.0 != 0,
            k <= w.len(),
            seeds.wf(),
            seeds@ == materials_among(m, got),
            stale@.no_duplicates(),
            stale@.to_set() == owners_of_kind(*st, got, StructureKind::Material),
            got == cells + Set::new(|q: Cell| weld_partner(m, w.take(k as int), pos, q)),
        decreases w.len() - k,
    {
        let wk = welds[k];
        let other: u64 = if wk.a.0 == bid.0 {
            wk.b.0
        } else if wk.b.0 == bid.0 {
            wk.a.0
        } else {
            0
        };
        let ghost pre = got;
        let mut found: Option<Cell> = None;
        if other != 0 {
            found = pos_of_id(materials, other);
        }
        match found {
            Some(q) => {
                note_touched(st, materials, seeds, stale, q, Ghost(got));
                proof {
                    got = got.insert(q);
                }
            },
            None => {},
        }
        proof {
            assert(w.take(k + 1) =~= w.take(k as int).push(wk));
            assert forall|q: Cell| #[trigger] weld_partner(m, w.take(k + 1), pos, q) <==> (weld_partner(m, w.take(k as int), pos, q)
                || found == Some(q)) by {
                if weld_partner(m, w.take(k + 1), pos, q) {
                    let i = choose|i: int| 0 <= i < w.take(k + 1).len() && ((#[trigger] w.take(k + 1)[i].a.0 == m[pos].0
                        && w.take(k + 1)[i].b.0 == m[q].0) || (w.take(k + 1)[i].b.0 == m[pos].0 && w.take(k + 1)[i].a.0 == m[q].0));
                    if i < k {
                        assert(w.take(k as int)[i] == w.take(k + 1)[i]);
                        assert(welded(w.take(k as int), m[pos].0, m[q].0));
                    } else {
                        assert(w.take(k + 1)[i] == wk);
                        assert(other == m[q].0);
                        assert(material_ids(m).contains(other));
                        let fq = found->0;
                        assert(m[fq].0 == other);
                        if fq != q {
                            assert(m[fq] != m[q]);
                        }
                    }
                }
                if weld_partner(m, w.take(k as int), pos, q) {
                    let i = choose|i: int| 0 <= i < w.take(k as int).len() && ((#[trigger] w.take(k as int)[i].a.0 == m[pos].0
                        && w.take(k as int)[i].b.0 == m[q].0) || (w.take(k as int)[i].b.0 == m[pos].0 && w.take(k as int)[i].a.0 == m[q].0));
                    assert(w.take(k + 1)[i] == w.take(k as int)[i]);
                }
                if found == Some(q) {
                    assert(w.take(k + 1)[k as int] == wk);
                    assert(m[q].0 == other);
                }
            }
            assert(got =~= cells + Set::new(|q: Cell| weld_partner(m, w.take(k + 1), pos, q)));
        }
        k = k + 1;
    }
    proof {
        assert(w.take(k as int) =~= w);
    }
}

/// The material structures an edit at `changed` breaks up: those owning a touched cell.
pub open spec fn material_edit_stale(st: StructureState, m: Map<Cell, BlockId>, w: Seq<MaterialWeld>, changed: Set<Cell>) -> Set<
    StructureId,
> {
    owners_of_kind(st, material_touched(m, w, changed), StructureKind::Material)
}

/// The cells owned by one of `ids`.
pub open spec fn cells_of(st: StructureState, ids: Set<StructureId>) -> Set<Cell> {
    Set::new(|c: Cell| st.index().contains_key(c) && ids.contains(st.index()[c]))
}

/// The materials an edit at `changed` regrows from: the touched materials and the
/// materials of the structures it breaks up.
pub open spec fn material_edit_seeds(st: StructureState, m: Map<Cell, BlockId>, w: Seq<MaterialWeld>, changed: Set<Cell>) -> Set<
    Cell,
> {
    materials_among(m, material_touched(m, w, changed) + cells_of(st, material_edit_stale(st, m, w, changed)))
}

/// `prev` remembers, once each, the member key (over `m`) and identity of every
/// structure of `stale` holding a material.
pub open spec fn remembered_stale(
    prev: Seq<(Vec<u64>, StructureId)>,
    st: StructureState,
    m: Map<Cell, BlockId>,
    stale: Set<StructureId>,
) -> bool {
    &&& forall|i: int| 0 <= i < prev.len() ==> stale.contains((#[trigger] prev[i]).1) && prev[i].0@.len() > 0
        && member_key_ok(prev[i].0@, m, st.table()[prev[i].1.0].positions@)
    &&& forall|i: int, j: int| 0 <= i < prev.len() && 0 <= j < prev.len() && i != j ==> (#[trigger] prev[i]).1 != (#[trigger] prev[j]).1
    &&& forall|id: StructureId| #[trigger] stale.contains(id) && (exists|p: Cell| st.table()[id.0].positions@.contains(p) && #[trigger] m.contains_key(p))
        ==> exists|i: int| 0 <= i < prev.len() && (#[trigger] prev[i]).1 == id
}

/// `sup` lists, once each, every structure of `stale` with its recorded gravity
/// supports in `st`.
pub open spec fn stale_supports(sup: Seq<(StructureId, Vec<(Cell, Cell)>)>, st: StructureState, stale: Set<StructureId>) -> bool {
    &&& forall|i: int| 0 <= i < sup.len() ==> stale.contains((#[trigger] sup[i]).0) && sup[i].1@ == st.table()[sup[i].0.0].gravity_support@
    &&& forall|i: int, j: int| 0 <= i < sup.len() && 0 <= j < sup.len() && i != j ==> (#[trigger] sup[i]).0 != (#[trigger] sup[j]).0
    &&& forall|id: StructureId| #[trigger] stale.contains(id) ==> exists|i: int| 0 <= i < sup.len() && (#[trigger] sup[i]).0 == id
}

/// `after` is `before` after an edit at `changed`: the material structures it breaks up
/// are removed (their member keys and gravity supports remembered), and the welded
/// classes of the seeds, taken in (x, y, z) order, registered again (see
/// [`material_progress`]).
pub open spec fn material_edited(
    before: StructureState,
    after: StructureState,
    m: Map<Cell, BlockId>,
    w: Seq<MaterialWeld>,
    changed: Set<Cell>,
) -> bool {
    let stale = material_edit_stale(before, m, w, changed);
    exists|mid: StructureState, prev: Seq<(Vec<u64>, StructureId)>, sup: Seq<(StructureId, Vec<(Cell, Cell)>)>, starts: Seq<Cell>|
        #[trigger] material_progress(after, mid, m, w, prev, sup, material_starts(m, starts), starts.len()) && structures_removed(
            before,
            mid,
            stale,
        ) && remembered_stale(prev, before, m, stale) && stale_supports(sup, before, stale) && cells_sorted(starts) && starts.to_set() == material_edit_seeds(
            before,
            m,
            w,
            changed,
        )
}

proof fn lemma_touched_step(m: Map<Cell, BlockId>, w: Seq<MaterialWeld>, done: Set<Cell>, pos: Cell)
    ensures
        material_touched(m, w, done.insert(pos)) == material_touched(m, w, done).insert(pos) + Set::new(
            |q: Cell| weld_partner(m, w, pos, q),
        ),
{
    assert forall|q: Cell| material_touched(m, w, done.insert(pos)).contains(q) <==> (material_touched(m, w, done).insert(pos) + Set::new(
        |q: Cell| weld_partner(m, w, pos, q),
    )).contains(q) by {
        if material_touched(m, w, done.insert(pos)).contains(q) && !done.insert(pos).contains(q) {
            let p = choose|p: Cell| #[trigger] done.insert(pos).contains(p) && weld_partner(m, w, p, q);
            if p != pos {
                assert(done.contains(p));
            }
        }
        if material_touched(m, w, done).contains(q) && !done.contains(q) {
            let p = choose|p: Cell| #[trigger] done.contains(p) && weld_partner(m, w, p, q);
            assert(done.insert(pos).contains(p));
        }
        if weld_partner(m, w, pos, q) {
            assert(done.insert(pos).contains(pos));
        }
    }
    assert(material_touched(m, w, done.insert(pos)) =~= material_touched(m, w, done).insert(pos) + Set::new(
        |q: Cell| weld_partner(m, w, pos, q),
    ));
}

/// After an edit at `changed`: breaks up the material structures owning a touched cell
/// (see [`material_touched`]), remembering their member keys, and registers the welded
/// classes of the touched materials and of the materials of the removed structures
/// again (see [`material_edited`]).  The material structures left must form whole
/// classes.
pub(crate) fn apply_material_edit(st: &mut StructureState, materials: &CellMap<BlockId>, welds: &[MaterialWeld], changed: &CellSet)
    requires
        old(st).wf(),
        materials.wf(),
        materials_ok(materials@),
        changed.wf(),
        classes_whole(
            materials@,
            welds@,
            without_owners(old(st).index(), material_edit_stale(*old(st), materials@, welds@, changed@)).dom(),
        ),
        old(st).last_id() + materials@.dom().len() <= u64::MAX,
    ensures
        material_edited(*old(st), *final(st), materials@, welds@, changed@),
{
    let ghost m = materials@;
    let ghost w = welds@;
    let ghost s0 = *st;
    let list = changed.to_vec();
    proof {
        changed.lemma_elems();
        s0.lemma_wf_facts();
    }
    let mut seeds = CellSet::new();
    let mut stale: Vec<StructureId> = Vec::new();
    let ghost mut got: Set<Cell> = Set::empty();
    proof {
        assert(list@.take(0).to_set() =~= Set::<Cell>::empty());
        assert(material_touched(m, w, Set::<Cell>::empty()) =~= Set::<Cell>::empty());
        assert(seeds@ =~= materials_among(m, got));
        assert(stale@.to_set() =~= owners_of_kind(*st, got, StructureKind::Material));
    }
    let mut i: usize = 0;
    while i < list.len()
        invariant
            *st == s0,
            s0.wf(),
            materials.wf(),
            materials_ok(m),
            m == materials@,
            w == welds@,
            i <= list@.len(),
            seeds.wf(),
            seeds@ == materials_among(m, got),
            stale@.no_duplicates(),
            stale@.to_set() == owners_of_kind(s0, got, StructureKind::Material),
            got == material_touched(m, w, list@.take(i as int).to_set()),
        decreases list@.len() - i,
    {
        let pos = list[i];
        note_touched(st, materials, &mut seeds, &mut stale, pos, Ghost(got));
        proof {
            got = got.insert(pos);
        }
        note_weld_partners(st, materials, welds, &mut seeds, &mut stale, pos, Ghost(got));
        proof {
            got = got + Set::new(|q: Cell| weld_partner(m, w, pos, q));
            list@.take(i as int).lemma_push_to_set_commute(pos);
            assert(list@.take(i + 1) =~= list@.take(i as int).push(pos));
            lemma_touched_step(m, w, list@.take(i as int).to_set(), pos);
        }
        i = i + 1;
    }
    proof {
        assert(list@.take(i as int) =~= list@);
    }
    let ghost stale_set = material_edit_stale(s0, m, w, changed@);
    let ghost touched = got;
    proof {
        assert(list@.to_set() == changed@);
        assert(touched == material_touched(m, w, changed@));
    }
    let mut previous: Vec<(Vec<u64>, StructureId)> = Vec::new();
    let mut support: Vec<(StructureId, Vec<(Cell, Cell)>)> = Vec::new();
    let mut j: usize = 0;
    while j < stale.len()
        invariant
            support@.len() == j,
            forall|a: int| 0 <= a < j ==> (#[trigger] support@[a]).0 == stale@[a] && support@[a].1@ == s0.table()[stale@[a].0].gravity_support@,
            *st == s0,
            s0.wf(),
            materials.wf(),
            materials_ok(m),
            m == materials@,
            j <= stale@.len(),
            stale@.no_duplicates(),
            stale@.to_set() == stale_set,
            w == welds@,
            touched == material_touched(m, w, changed@),
            stale_set == owners_of_kind(s0, touched, StructureKind::Material),
            seeds.wf(),
            seeds@ == materials_among(m, touched + cells_of(s0, stale@.take(j as int).to_set())),
            forall|a: int| 0 <= a < previous@.len() ==> stale@.take(j as int).contains((#[trigger] previous@[a]).1)
                && previous@[a].0@.len() > 0 && member_key_ok(previous@[a].0@, m, s0.table()[previous@[a].1.0].positions@),
            forall|a: int, b: int| 0 <= a < previous@.len() && 0 <= b < previous@.len() && a != b ==> (#[trigger] previous@[a]).1
                != (#[trigger] previous@[b]).1,
            forall|t: int| 0 <= t < j && (exists|p: Cell| s0.table()[(#[trigger] stale@[t]).0].positions@.contains(p) && #[trigger] m.contains_key(p))
                ==> exists|a: int| 0 <= a < previous@.len() && (#[trigger] previous@[a]).1 == stale@[t],
        decreases stale@.len() - j,
    {
        let id = stale[j];
        proof {
            s0.lemma_wf_facts();
            assert(stale@[j as int] == id);
            assert(stale@.to_set().contains(id));
            let p = choose|p: Cell| #[trigger] touched.contains(p) && s0.index().contains_key(p) && s0.index()[p] == id
                && s0.table()[id.0].kind == StructureKind::Material;
            assert(s0.table().contains_key(id.0));
            assert(stale@.take(j + 1) =~= stale@.take(j as int).push(id));
            stale@.take(j as int).lemma_push_to_set_commute(id);
        }
        let s = st.get(id).unwrap();
        let members = material_members(materials, &s.positions);
        support.push((id, copy_contacts(&s.gravity_support)));
        let ghost prev0 = previous@;
        if members.len() > 0 {
            proof {
                assert forall|a: int| 0 <= a < prev0.len() implies prev0[a].1 != id by {
                    assert(stale@.take(j as int).contains(prev0[a].1));
                    let t = choose|t: int| 0 <= t < j && stale@.take(j as int)[t] == prev0[a].1;
                    assert(stale@[t] == prev0[a].1);
                    assert(stale@[t] != stale@[j as int]);
                }
            }
            previous.push((members, id));
        }
        let cells = s.positions.to_vec();
        proof {
            s.positions.lemma_elems();
            assert(entry_ok(id.0, s0.table()[id.0], s0.last_id(), s0.index()));
        }
        let ghost seeds0 = seeds@;
        let mut k: usize = 0;
        while k < cells.len()
            invariant
                materials.wf(),
                m == materials@,
                k <= cells@.len(),
                seeds.wf(),
                seeds@ == seeds0 + materials_among(m, cells@.take(k as int).to_set()),
            decreases cells@.len() - k,
        {
            let c = cells[k];
            if materials.contains_key(c) {
                seeds.insert(c);
            }
            proof {
                cells@.take(k as int).lemma_push_to_set_commute(c);
                assert(cells@.take(k + 1) =~= cells@.take(k as int).push(c));
                assert(seeds@ =~= seeds0 + materials_among(m, cells@.take(k + 1).to_set()));
            }
            k = k + 1;
        }
        proof {
            assert(cells@.take(k as int) =~= cells@);
            assert(cells_of(s0, stale@.take(j + 1).to_set()) =~= cells_of(s0, stale@.take(j as int).to_set()) + s.positions@) by {
                assert forall|c: Cell| #[trigger] s.positions@.contains(c) implies s0.index().contains_key(c) && s0.index()[c] == id by {}
                assert forall|c: Cell| #[trigger] s0.index().contains_key(c) && s0.index()[c] == id implies s.positions@.contains(c) by {}
            }
            assert(seeds@ =~= materials_among(m, touched + cells_of(s0, stale@.take(j + 1).to_set())));
            assert forall|a: int| 0 <= a < previous@.len() implies stale@.take(j + 1).contains((#[trigger] previous@[a]).1)
                && previous@[a].0@.len() > 0 && member_key_ok(previous@[a].0@, m, s0.table()[previous@[a].1.0].positions@) by {
                if a < prev0.len() {
                    assert(previous@[a] == prev0[a]);
                    let t = choose|t: int| 0 <= t < j && stale@.take(j as int)[t] == prev0[a].1;
                    assert(stale@.take(j + 1)[t] == prev0[a].1);
                } else {
                    assert(stale@.take(j + 1)[j as int] == id);
                }
            }
            assert forall|t: int| 0 <= t < j + 1 && (exists|p: Cell| s0.table()[(#[trigger] stale@[t]).0].positions@.contains(p)
                && #[trigger] m.contains_key(p)) implies exists|a: int| 0 <= a < previous@.len() && (#[trigger] previous@[a]).1 == stale@[t] by {
                if t < j {
                    let a = choose|a: int| 0 <= a < prev0.len() && (#[trigger] prev0[a]).1 == stale@[t];
                    assert(previous@[a] == prev0[a]);
                } else {
                    let p = choose|p: Cell| s0.table()[stale@[t].0].positions@.contains(p) && #[trigger] m.contains_key(p);
                    assert(members@.contains(m[p].0));
                    assert(previous@[prev0.len() as int].1 == id);
                }
            }
        }
        j = j + 1;
    }
    proof {
        s0.lemma_wf_facts();
        assert(stale@.take(j as int) =~= stale@);
        assert(seeds@ =~= material_edit_seeds(s0, m, w, changed@));
        assert forall|t: int| 0 <= t < stale@.len() implies s0.table().contains_key(#[trigger] stale@[t].0) by {
            let id = stale@[t];
            assert(stale@.to_set().contains(id));
            let p = choose|p: Cell| #[trigger] touched.contains(p) && s0.index().contains_key(p) && s0.index()[p] == id
                && s0.table()[id.0].kind == StructureKind::Material;
        }
        assert forall|a: int| 0 <= a < previous@.len() implies s0.table().contains_key((#[trigger] previous@[a]).1.0) by {
            assert(stale@.take(j as int).contains(previous@[a].1));
            let t = choose|t: int| 0 <= t < stale@.len() && stale@[t] == previous@[a].1;
        }
        lemma_remembered_keys_distinct(previous@, s0, m);
        assert(remembered_stale(previous@, s0, m, stale_set)) by {
            assert forall|id: StructureId| #[trigger] stale_set.contains(id) && (exists|p: Cell| s0.table()[id.0].positions@.contains(p)
                && #[trigger] m.contains_key(p)) implies exists|a: int| 0 <= a < previous@.len() && (#[trigger] previous@[a]).1 == id by {
                assert(stale@.to_set().contains(id));
                let t = choose|t: int| 0 <= t < stale@.len() && stale@[t] == id;
            }
            assert forall|a: int| 0 <= a < previous@.len() implies stale_set.contains((#[trigger] previous@[a]).1) by {
                assert(stale@.take(j as int).contains(previous@[a].1));
                assert(stale@.to_set().contains(previous@[a].1));
            }
        }
    }
    st.remove_structures(&stale);
    let ghost mid = *st;
    let starts = sorted_cells(&seeds);
    proof {
        assert(remembered_ok(previous@, mid)) by {
            assert forall|a: int| 0 <= a < previous@.len() implies (#[trigger] previous@[a]).1.0 != 0 && previous@[a].1.0 <= mid.last_id()
                && !mid.table().contains_key(previous@[a].1.0) by {
                let id = previous@[a].1;
                assert(stale_set.contains(id));
                let p = choose|p: Cell| #[trigger] touched.contains(p) && s0.index().contains_key(p) && s0.index()[p] == id
                    && s0.table()[id.0].kind == StructureKind::Material;
                assert(s0.table().contains_key(id.0));
                assert(entry_ok(id.0, s0.table()[id.0], s0.last_id(), s0.index()));
                assert(stale@.to_set().contains(StructureId(id.0)));
            }
        }
        assert(mid.index() == without_owners(s0.index(), stale_set));
        materials.lemma_view_finite();
        assert(seeds@.subset_of(m.dom()));
        vstd::set_lib::lemma_len_subset(seeds@, m.dom());
    }
    proof {
        assert(stale_supports(support@, s0, stale_set)) by {
            assert forall|i: int| 0 <= i < support@.len() implies stale_set.contains((#[trigger] support@[i]).0) by {
                assert(stale@.to_set().contains(stale@[i]));
            }
            assert forall|id: StructureId| #[trigger] stale_set.contains(id) implies exists|i: int| 0 <= i < support@.len()
                && (#[trigger] support@[i]).0 == id by {
                assert(stale@.to_set().contains(id));
                let t = choose|t: int| 0 <= t < stale@.len() && stale@[t] == id;
                assert(support@[t].0 == id);
            }
        }
    }
    append_material_at_starts(st, materials, welds, previous.as_slice(), support.as_slice(), &starts);
    proof {
        assert(material_progress(*st, mid, m, w, previous@, support@, material_starts(m, starts@), starts@.len()));
    }
}

/// Remembered keys of distinct structures differ.
proof fn lemma_remembered_keys_distinct(prev: Seq<(Vec<u64>, StructureId)>, st: StructureState, m: Map<Cell, BlockId>)
    requires
        st.wf(),
        materials_ok(m),
        forall|a: int| 0 <= a < prev.len() ==> st.table().contains_key((#[trigger] prev[a]).1.0) && prev[a].0@.len() > 0
            && member_key_ok(prev[a].0@, m, st.table()[prev[a].1.0].positions@),
        forall|a: int, b: int| 0 <= a < prev.len() && 0 <= b < prev.len() && a != b ==> (#[trigger] prev[a]).1 != (#[trigger] prev[b]).1,
    ensures
        forall|a: int, b: int| 0 <= a < prev.len() && 0 <= b < prev.len() && a != b ==> (#[trigger] prev[a]).0@ != (#[trigger] prev[b]).0@,
{
    st.lemma_wf_facts();
    assert forall|a: int, b: int| 0 <= a < prev.len() && 0 <= b < prev.len() && a != b implies (#[trigger] prev[a]).0@ != (#[trigger] prev[b]).0@ by {
        if prev[a].0@ == prev[b].0@ {
            let ka = prev[a].1.0;
            let kb = prev[b].1.0;
            let x = prev[a].0@[0];
            assert(prev[a].0@.contains(x));
            let p = choose|p: Cell| st.table()[ka].positions@.contains(p) && m.contains_key(p) && #[trigger] m[p].0 == x;
            assert(prev[b].0@.contains(x));
            let q = choose|q: Cell| st.table()[kb].positions@.contains(q) && m.contains_key(q) && #[trigger] m[q].0 == x;
            if p != q {
                assert(m[p] != m[q]);
            }
            assert(entry_ok(ka, st.table()[ka], st.last_id(), st.index()));
            assert(entry_ok(kb, st.table()[kb], st.last_id(), st.index()));
            assert(st.table()[ka].id == prev[a].1);
        }
    }
}

/// Some material among `cells` has the identity `x`.
pub open spec fn holds_id(m: Map<Cell, BlockId>, cells: Set<Cell>, x: u64) -> bool {
    exists|p: Cell| cells.contains(p) && m.contains_key(p) && #[trigger] m[p].0 == x
}

/// The materials among `a` and among `b` have the same identities.
pub open spec fn same_members(m: Map<Cell, BlockId>, a: Set<Cell>, b: Set<Cell>) -> bool {
    forall|x: u64|
        #![trigger holds_id(m, a, x)]
        #![trigger holds_id(m, b, x)]
        holds_id(m, a, x) <==> holds_id(m, b, x)
}

/// `k` was a material structure of `old` whose material identities are those of `cells`.
pub open spec fn old_material_with_members(old: StructureState, m: Map<Cell, BlockId>, cells: Set<Cell>, k: u64) -> bool {
    &&& old.table().contains_key(k)
    &&& old.table()[k].kind == StructureKind::Material
    &&& same_members(m, old.table()[k].positions@, cells)
}

/// A material structure after a refresh: one welded class, active and free, under the
/// identity of an old material structure with the same material identities when
/// there was one, and a fresh identity otherwise.
pub open spec fn refreshed_entry(
    old: StructureState,
    st: StructureState,
    m: Map<Cell, BlockId>,
    w: Seq<MaterialWeld>,
    k: u64,
) -> bool {
    let s = st.table()[k];
    &&& s.kind == StructureKind::Material
    &&& s.activity == FactoryActivity::Active
    &&& s.freedom == StructureFreedom::All
    &&& s.scene_touching@ == Set::<Cell>::empty()
    &&& s.deform_groups@.len() == 0
    &&& s.head_of@.len() == 0
    &&& s.gravity_support@ == (if old.table().contains_key(k) && old.table()[k].kind == StructureKind::Material {
        old.table()[k].gravity_support@
    } else {
        Seq::empty()
    })
    &&& exists|p: Cell| m.contains_key(p) && #[trigger] s.positions@.contains(p) && s.positions@ == material_structure_spec(m, w, p)
    &&& if exists|k2: u64| #[trigger] old_material_with_members(old, m, s.positions@, k2) {
        old_material_with_members(old, m, s.positions@, k)
    } else {
        k > old.last_id()
    }
}

proof fn lemma_key_same_members(m: Map<Cell, BlockId>, key: Seq<u64>, a: Set<Cell>, b: Set<Cell>)
    requires
        member_key_ok(key, m, a),
    ensures
        member_key_ok(key, m, b) <==> same_members(m, a, b),
{
    if same_members(m, a, b) {
        assert forall|x: u64| #[trigger] key.contains(x) <==> exists|p: Cell| b.contains(p) && m.contains_key(p) && #[trigger] m[p].0 == x by {
            assert(key.contains(x) <==> exists|p: Cell| a.contains(p) && m.contains_key(p) && #[trigger] m[p].0 == x);
            assert(holds_id(m, a, x) <==> holds_id(m, b, x));
        }
    }
    if member_key_ok(key, m, b) {
        assert forall|x: u64| holds_id(m, a, x) <==> holds_id(m, b, x) by {
            assert(key.contains(x) <==> exists|p: Cell| a.contains(p) && m.contains_key(p) && #[trigger] m[p].0 == x);
            assert(key.contains(x) <==> exists|p: Cell| b.contains(p) && m.contains_key(p) && #[trigger] m[p].0 == x);
        }
    }
}

fn key_listed(previous: &Vec<(Vec<u64>, StructureId)>, key: &Vec<u64>) -> (r: bool)
    ensures
        r == exists|i: int| 0 <= i < previous@.len() && (#[trigger] previous@[i]).0@ == key@,
{
    let mut i: usize = 0;
    while i < previous.len()
        invariant
            i <= previous@.len(),
            forall|j: int| 0 <= j < i ==> (#[trigger] previous@[j]).0@ != key@,
        decreases previous@.len() - i,
    {
        if same_ids(&previous[i].0, key) {
            return true;
        }
        i = i + 1;
    }
    false
}

/// A material cell that the table indexes belongs to a material structure.
pub open spec fn materials_owned_by_materials(st: StructureState, m: Map<Cell, BlockId>) -> bool {
    forall|p: Cell| #[trigger] m.contains_key(p) && st.index().contains_key(p) ==> st.table()[st.index()[p].0].kind
        == StructureKind::Material
}

/// `st` is `old` with its material structures rebuilt: the factory structures kept,
/// every other structure a refreshed one (see [`refreshed_entry`]), and the cell index
/// made of the factory cells and the materials, each material in the structure of its
/// welded class.
pub open spec fn materials_refreshed(old: StructureState, st: StructureState, m: Map<Cell, BlockId>, w: Seq<MaterialWeld>) -> bool {
    &&& st.wf()
    &&& st.held() == old.held()
    &&& st.moving() == old.moving()
    &&& st.head_counter() == old.head_counter()
    &&& st.acceptors() == old.acceptors()
    &&& forall|k: u64| #[trigger] old.table().contains_key(k) && old.table()[k].kind == StructureKind::Factory
        ==> st.table().contains_key(k) && st.table()[k] == old.table()[k]
    &&& forall|k: u64| #[trigger] st.table().contains_key(k) ==> (old.table().contains_key(k) && old.table()[k].kind
        == StructureKind::Factory && st.table()[k] == old.table()[k]) || refreshed_entry(old, st, m, w, k)
    &&& forall|p: Cell| #[trigger] st.index().contains_key(p) <==> ((old.index().contains_key(p) && old.table()[old.index()[p].0].kind
        == StructureKind::Factory) || m.contains_key(p))
    &&& forall|p: Cell| #[trigger] m.contains_key(p) ==> st.table()[st.index()[p].0].positions@ == material_structure_spec(m, w, p)
}

/// Member keys of the material structures of the table, each key once, with the
/// identity of a structure it belongs to.
fn remembered_material_ids(st: &StructureState, materials: &CellMap<BlockId>) -> (r: Vec<(Vec<u64>, StructureId)>)
    requires
        st.wf(),
        materials.wf(),
        materials_ok(materials@),
    ensures
        forall|a: int, b: int| 0 <= a < r@.len() && 0 <= b < r@.len() && a != b ==> (#[trigger] r@[a]).0@
            != (#[trigger] r@[b]).0@ && r@[a].1 != r@[b].1,
        forall|a: int| 0 <= a < r@.len() ==> st.table().contains_key((#[trigger] r@[a]).1.0)
            && st.table()[r@[a].1.0].kind == StructureKind::Material && member_key_ok(
            r@[a].0@,
            materials@,
            st.table()[r@[a].1.0].positions@,
        ),
        forall|k: u64| #[trigger] st.table().contains_key(k) && st.table()[k].kind == StructureKind::Material ==> exists|a: int|
            0 <= a < r@.len() && member_key_ok((#[trigger] r@[a]).0@, materials@, st.table()[k].positions@),
{
    let ghost m = materials@;
    let ids = st.structure_ids();
    let mut previous: Vec<(Vec<u64>, StructureId)> = Vec::new();
    let mut i: usize = 0;
    while i < ids.len()
        invariant
            st.wf(),
            materials.wf(),
            m == materials@,
            materials_ok(m),
            ids@.no_duplicates(),
            forall|id: StructureId| ids@.contains(id) <==> st.table().contains_key(id.0),
            i <= ids@.len(),
            forall|a: int, b: int| 0 <= a < previous@.len() && 0 <= b < previous@.len() && a != b ==> (#[trigger] previous@[a]).0@
                != (#[trigger] previous@[b]).0@ && previous@[a].1 != previous@[b].1,
            forall|a: int| 0 <= a < previous@.len() ==> exists|t: int| 0 <= t < i && ids@[t] == (#[trigger] previous@[a]).1,
            forall|a: int| 0 <= a < previous@.len() ==> st.table().contains_key((#[trigger] previous@[a]).1.0)
                && st.table()[previous@[a].1.0].kind == StructureKind::Material && member_key_ok(
                previous@[a].0@,
                m,
                st.table()[previous@[a].1.0].positions@,
            ),
            forall|t: int| 0 <= t < i && st.table()[(#[trigger] ids@[t]).0].kind == StructureKind::Material ==> exists|a: int|
                0 <= a < previous@.len() && member_key_ok((#[trigger] previous@[a]).0@, m, st.table()[ids@[t].0].positions@),
        decreases ids@.len() - i,
    {
        let id = ids[i];
        proof {
            assert(ids@.contains(ids@[i as int]));
        }
        let s = st.get(id).unwrap();
        if s.kind == StructureKind::Material {
            proof {
                st.lemma_entry(id.0);
            }
            let members = material_members(materials, &s.positions);
            if !key_listed(&previous, &members) {
                let ghost p0 = previous@;
                previous.push((members, id));
                proof {
                    assert forall|a: int, b: int| 0 <= a < previous@.len() && 0 <= b < previous@.len() && a != b implies (#[trigger] previous@[a]).0@
                        != (#[trigger] previous@[b]).0@ && previous@[a].1 != previous@[b].1 by {
                        if a == p0.len() || b == p0.len() {
                            let o = if a == p0.len() { b } else { a };
                            assert(previous@[o] == p0[o]);
                            let t = choose|t: int| 0 <= t < i && ids@[t] == p0[o].1;
                            assert(ids@[t] != ids@[i as int]);
                        } else {
                            assert(previous@[a] == p0[a] && previous@[b] == p0[b]);
                        }
                    }
                    assert forall|a: int| 0 <= a < previous@.len() implies exists|t: int| 0 <= t < i + 1 && ids@[t] == (#[trigger] previous@[a]).1 by {
                        if a < p0.len() {
                            assert(previous@[a] == p0[a]);
                            let t = choose|t: int| 0 <= t < i && ids@[t] == p0[a].1;
                        } else {
                            assert(ids@[i as int] == previous@[a].1);
                        }
                    }
                    assert forall|a: int| 0 <= a < previous@.len() implies st.table().contains_key((#[trigger] previous@[a]).1.0)
                        && st.table()[previous@[a].1.0].kind == StructureKind::Material && member_key_ok(
                        previous@[a].0@,
                        m,
                        st.table()[previous@[a].1.0].positions@,
                    ) by {
                        if a < p0.len() {
                            assert(previous@[a] == p0[a]);
                        }
                    }
                    assert forall|t: int| 0 <= t < i + 1 && st.table()[(#[trigger] ids@[t]).0].kind == StructureKind::Material implies exists|a: int|
                        0 <= a < previous@.len() && member_key_ok((#[trigger] previous@[a]).0@, m, st.table()[ids@[t].0].positions@) by {
                        if t < i {
                            let a = choose|a: int| 0 <= a < p0.len() && member_key_ok((#[trigger] p0[a]).0@, m, st.table()[ids@[t].0].positions@);
                            assert(previous@[a] == p0[a]);
                        } else {
                            assert(previous@[p0.len() as int].0@ == members@);
                        }
                    }
                }
            } else {
                proof {
                    let a = choose|a: int| 0 <= a < previous@.len() && (#[trigger] previous@[a]).0@ == members@;
                    assert(member_key_ok(previous@[a].0@, m, st.table()[id.0].positions@));
                }
            }
        }
        i = i + 1;
    }
    proof {
        assert forall|k: u64| #[trigger] st.table().contains_key(k) && st.table()[k].kind == StructureKind::Material implies exists|a: int|
            0 <= a < previous@.len() && member_key_ok((#[trigger] previous@[a]).0@, m, st.table()[k].positions@) by {
            assert(ids@.contains(StructureId(k)));
            let t = choose|t: int| 0 <= t < ids@.len() && ids@[t] == StructureId(k);
        }
    }
    previous
}

/// An identity with one entry in `sup` finds that entry's supports; one with none finds
/// none.
proof fn lemma_support_of(sup: Seq<(StructureId, Vec<(Cell, Cell)>)>, id: StructureId)
    ensures
        (forall|i: int| 0 <= i < sup.len() ==> (#[trigger] sup[i]).0 != id) ==> support_of(sup, id) == Seq::<(Cell, Cell)>::empty(),
        forall|i: int| 0 <= i < sup.len() && (#[trigger] sup[i]).0 == id && (forall|j: int| 0 <= j < sup.len() && j != i ==> (#[trigger] sup[j]).0 != id)
            ==> support_of(sup, id) == sup[i].1@,
    decreases sup.len(),
{
    if sup.len() > 0 {
        lemma_support_of(sup.drop_first(), id);
        if forall|i: int| 0 <= i < sup.len() ==> (#[trigger] sup[i]).0 != id {
            assert(sup[0].0 != id);
            assert forall|i: int| 0 <= i < sup.drop_first().len() implies (#[trigger] sup.drop_first()[i]).0 != id by {
                assert(sup[i + 1].0 != id);
            }
        }
        assert forall|i: int| 0 <= i < sup.len() && (#[trigger] sup[i]).0 == id && (forall|j: int| 0 <= j < sup.len() && j != i ==> (#[trigger] sup[j]).0 != id)
            implies support_of(sup, id) == sup[i].1@ by {
            if i > 0 {
                assert(sup[0].0 != id);
                assert(sup.drop_first()[i - 1] == sup[i]);
                assert forall|j: int| 0 <= j < sup.drop_first().len() && j != i - 1 implies (#[trigger] sup.drop_first()[j]).0 != id by {
                    assert(sup[j + 1].0 != id);
                }
            }
        }
    }
}

/// Every material structure of the table with its recorded gravity supports, once each.
fn material_supports(st: &StructureState) -> (r: Vec<(StructureId, Vec<(Cell, Cell)>)>)
    requires
        st.wf(),
    ensures
        forall|a: int| 0 <= a < r@.len() ==> st.table().contains_key((#[trigger] r@[a]).0.0) && st.table()[r@[a].0.0].kind
            == StructureKind::Material && r@[a].1@ == st.table()[r@[a].0.0].gravity_support@,
        forall|a: int, b: int| 0 <= a < r@.len() && 0 <= b < r@.len() && a != b ==> (#[trigger] r@[a]).0 != (#[trigger] r@[b]).0,
        forall|k: u64| #[trigger] st.table().contains_key(k) && st.table()[k].kind == StructureKind::Material ==> exists|a: int|
            0 <= a < r@.len() && (#[trigger] r@[a]).0 == StructureId(k),
{
    let ids = st.structure_ids();
    let mut r: Vec<(StructureId, Vec<(Cell, Cell)>)> = Vec::new();
    let mut i: usize = 0;
    while i < ids.len()
        invariant
            st.wf(),
            ids@.no_duplicates(),
            forall|id: StructureId| ids@.contains(id) <==> st.table().contains_key(id.0),
            i <= ids@.len(),
            forall|a: int| 0 <= a < r@.len() ==> exists|t: int| 0 <= t < i && ids@[t] == (#[trigger] r@[a]).0,
            forall|a: int| 0 <= a < r@.len() ==> st.table().contains_key((#[trigger] r@[a]).0.0) && st.table()[r@[a].0.0].kind
                == StructureKind::Material && r@[a].1@ == st.table()[r@[a].0.0].gravity_support@,
            forall|a: int, b: int| 0 <= a < r@.len() && 0 <= b < r@.len() && a != b ==> (#[trigger] r@[a]).0 != (#[trigger] r@[b]).0,
            forall|t: int| 0 <= t < i && st.table()[(#[trigger] ids@[t]).0].kind == StructureKind::Material ==> exists|a: int|
                0 <= a < r@.len() && (#[trigger] r@[a]).0 == ids@[t],
        decreases ids@.len() - i,
    {
        let id = ids[i];
        proof {
            assert(ids@.contains(ids@[i as int]));
        }
        let s = st.get(id).unwrap();
        let ghost r0 = r@;
        if s.kind == StructureKind::Material {
            r.push((id, copy_contacts(&s.gravity_support)));
            proof {
                assert forall|a: int, b: int| 0 <= a < r@.len() && 0 <= b < r@.len() && a != b implies (#[trigger] r@[a]).0 != (#[trigger] r@[b]).0 by {
                    if a == r0.len() || b == r0.len() {
                        let o = if a == r0.len() { b } else { a };
                        assert(r@[o] == r0[o]);
                        let t = choose|t: int| 0 <= t < i && ids@[t] == r0[o].0;
                        assert(ids@[t] != ids@[i as int]);
                    } else {
                        assert(r@[a] == r0[a] && r@[b] == r0[b]);
                    }
                }
                assert forall|a: int| 0 <= a < r@.len() implies exists|t: int| 0 <= t < i + 1 && ids@[t] == (#[trigger] r@[a]).0 by {
                    if a < r0.len() {
                        assert(r@[a] == r0[a]);
                        let t = choose|t: int| 0 <= t < i && ids@[t] == r0[a].0;
                    } else {
                        assert(ids@[i as int] == r@[a].0);
                    }
                }
                assert forall|a: int| 0 <= a < r@.len() implies st.table().contains_key((#[trigger] r@[a]).0.0) && st.table()[r@[a].0.0].kind
                    == StructureKind::Material && r@[a].1@ == st.table()[r@[a].0.0].gravity_support@ by {
                    if a < r0.len() {
                        assert(r@[a] == r0[a]);
                    }
                }
                assert forall|t: int| 0 <= t < i + 1 && st.table()[(#[trigger] ids@[t]).0].kind == StructureKind::Material implies exists|a: int|
                    0 <= a < r@.len() && (#[trigger] r@[a]).0 == ids@[t] by {
                    if t < i {
                        let a = choose|a: int| 0 <= a < r0.len() && (#[trigger] r0[a]).0 == ids@[t];
                        assert(r@[a] == r0[a]);
                    } else {
                        assert(r@[r0.len() as int].0 == ids@[t]);
                    }
                }
            }
        }
        i = i + 1;
    }
    proof {
        assert forall|k: u64| #[trigger] st.table().contains_key(k) && st.table()[k].kind == StructureKind::Material implies exists|a: int|
            0 <= a < r@.len() && (#[trigger] r@[a]).0 == StructureId(k) by {
            assert(ids@.contains(StructureId(k)));
            let t = choose|t: int| 0 <= t < ids@.len() && ids@[t] == StructureId(k);
        }
    }
    r
}

/// Rebuilds the material structures from the materials and their welds: the factory
/// structures stay, every welded class becomes a material structure, and a class
/// whose material identities are those of an old material structure takes that
/// structure's identity back.
pub fn refresh_material_structures(st: &mut StructureState, materials: &CellMap<BlockId>, welds: &[MaterialWeld])
    requires
        old(st).wf(),
        materials.wf(),
        materials_ok(materials@),
        materials_owned_by_materials(*old(st), materials@),
        old(st).last_id() + materials@.dom().len() <= u64::MAX,
    ensures
        materials_refreshed(*old(st), *final(st), materials@, welds@),
{
    let ghost m = materials@;
    let ghost w = welds@;
    let ghost st0 = *st;
    let previous = remembered_material_ids(st, materials);
    let support = material_supports(st);
    st.retain_factory_only();
    let ghost st1 = *st;
    proof {
        st0.lemma_wf_facts();
        st1.lemma_wf_facts();
        assert forall|a: int| 0 <= a < previous@.len() implies (#[trigger] previous@[a]).1.0 != 0 && previous@[a].1.0 <= st1.last_id()
            && !st1.table().contains_key(previous@[a].1.0) by {
            st0.lemma_entry(previous@[a].1.0);
        }
        assert forall|p: Cell| #[trigger] m.contains_key(p) implies !st1.index().contains_key(p) by {}
    }
    append_material_structures(st, materials, welds, previous.as_slice(), support.as_slice());
    proof {
        let st2 = *st;
        let prev = previous@;
        let sup = support@;
        assert forall|k: u64| #[trigger] st0.table().contains_key(k) && st0.table()[k].kind == StructureKind::Factory
            implies st2.table().contains_key(k) && st2.table()[k] == st0.table()[k] by {
            assert(st1.table().contains_key(k));
        }
        assert forall|k: u64| #[trigger] st2.table().contains_key(k) implies (st0.table().contains_key(k) && st0.table()[k].kind
            == StructureKind::Factory && st2.table()[k] == st0.table()[k]) || refreshed_entry(st0, st2, m, w, k) by {
            if !st1.table().contains_key(k) {
                assert(new_material_entry(st2, st1, m, w, prev, sup, k));
                lemma_support_of(sup, StructureId(k));
                if st0.table().contains_key(k) && st0.table()[k].kind == StructureKind::Material {
                    let a = choose|a: int| 0 <= a < sup.len() && (#[trigger] sup[a]).0 == StructureId(k);
                    assert forall|j: int| 0 <= j < sup.len() && j != a implies (#[trigger] sup[j]).0 != StructureId(k) by {}
                } else {
                    assert forall|i: int| 0 <= i < sup.len() implies (#[trigger] sup[i]).0 != StructureId(k) by {}
                }
                let pos = st2.table()[k].positions@;
                if exists|k2: u64| #[trigger] old_material_with_members(st0, m, pos, k2) {
                    let k2 = choose|k2: u64| #[trigger] old_material_with_members(st0, m, pos, k2);
                    let a = choose|a: int| 0 <= a < prev.len() && member_key_ok((#[trigger] prev[a]).0@, m, st0.table()[k2].positions@);
                    lemma_key_same_members(m, prev[a].0@, st0.table()[k2].positions@, pos);
                    assert(remembered_any(prev, m, pos));
                    let b = choose|b: int| 0 <= b < prev.len() && member_key_ok((#[trigger] prev[b]).0@, m, pos) && prev[b].1 == StructureId(k);
                    lemma_key_same_members(m, prev[b].0@, st0.table()[prev[b].1.0].positions@, pos);
                    assert(old_material_with_members(st0, m, pos, k));
                } else {
                    if remembered_any(prev, m, pos) {
                        let b = choose|b: int| 0 <= b < prev.len() && member_key_ok((#[trigger] prev[b]).0@, m, pos);
                        lemma_key_same_members(m, prev[b].0@, st0.table()[prev[b].1.0].positions@, pos);
                        assert(old_material_with_members(st0, m, pos, prev[b].1.0));
                    }
                }
            }
        }
    }
}

/// After a refresh, the structure of a material is its refreshed material structure.
proof fn lemma_refreshed_owner(s0: StructureState, s1: StructureState, m: Map<Cell, BlockId>, w: Seq<MaterialWeld>, p: Cell)
    requires
        s0.wf(),
        materials_owned_by_materials(s0, m),
        materials_refreshed(s0, s1, m, w),
        m.contains_key(p),
    ensures
        s1.index().contains_key(p),
        s1.table().contains_key(s1.index()[p].0),
        s1.table()[s1.index()[p].0].kind == StructureKind::Material,
        refreshed_entry(s0, s1, m, w, s1.index()[p].0),
{
    s1.lemma_wf_facts();
    let k = s1.index()[p].0;
    assert(s1.index().contains_key(p));
    assert(s1.table().contains_key(k));
    if s0.table().contains_key(k) && s0.table()[k].kind == StructureKind::Factory && s1.table()[k] == s0.table()[k] {
        s0.lemma_entry(k);
        assert(s1.table()[k].positions@.contains(p));
        assert(s0.index().contains_key(p));
        s0.lemma_wf_facts();
        assert(s0.index()[p] == s0.table()[k].id);
        assert(s0.table()[k].id.0 == k);
    }
}

/// After a refresh, a material structure holds one whole welded class.
proof fn lemma_refreshed_material(s0: StructureState, s1: StructureState, m: Map<Cell, BlockId>, w: Seq<MaterialWeld>, k: u64)
    requires
        materials_refreshed(s0, s1, m, w),
        s1.table().contains_key(k),
        s1.table()[k].kind == StructureKind::Material,
    ensures
        refreshed_entry(s0, s1, m, w, k),
{
}

/// Refreshing the material structures a second time with the same materials and
/// welds keeps every identity, every member set and the cell index.
pub proof fn lemma_refresh_idempotent(
    s0: StructureState,
    s1: StructureState,
    s2: StructureState,
    m: Map<Cell, BlockId>,
    w: Seq<MaterialWeld>,
)
    requires
        s0.wf(),
        materials_ok(m),
        materials_owned_by_materials(s0, m),
        materials_refreshed(s0, s1, m, w),
        materials_refreshed(s1, s2, m, w),
    ensures
        forall|k: u64| #[trigger] s2.table().contains_key(k) == s1.table().contains_key(k),
        forall|k: u64| #[trigger] s1.table().contains_key(k) ==> {
            &&& s2.table()[k].positions@ == s1.table()[k].positions@
            &&& s2.table()[k].kind == s1.table()[k].kind
            &&& s2.table()[k].activity == s1.table()[k].activity
            &&& s2.table()[k].freedom == s1.table()[k].freedom
        },
        forall|p: Cell| #[trigger] s2.index().contains_key(p) == s1.index().contains_key(p),
        forall|p: Cell| #[trigger] s1.index().contains_key(p) ==> s2.index()[p] == s1.index()[p],
{
    s1.lemma_wf_facts();
    s2.lemma_wf_facts();
    assert(materials_owned_by_materials(s1, m)) by {
        assert forall|p: Cell| #[trigger] m.contains_key(p) && s1.index().contains_key(p) implies s1.table()[s1.index()[p].0].kind
            == StructureKind::Material by {
            lemma_refreshed_owner(s0, s1, m, w, p);
        }
    }
    // every structure of the second refresh has the members it had after the first
    assert forall|k: u64| #[trigger] s2.table().contains_key(k) implies s1.table().contains_key(k)
        && s2.table()[k].positions@ == s1.table()[k].positions@ && s2.table()[k].kind == s1.table()[k].kind
        && s2.table()[k].activity == s1.table()[k].activity && s2.table()[k].freedom == s1.table()[k].freedom by {
        if !(s1.table().contains_key(k) && s1.table()[k].kind == StructureKind::Factory && s2.table()[k] == s1.table()[k]) {
            assert(refreshed_entry(s1, s2, m, w, k));
            let c = s2.table()[k].positions@;
            let q = choose|q: Cell| m.contains_key(q) && #[trigger] c.contains(q) && c == material_structure_spec(m, w, q);
            lemma_refreshed_owner(s0, s1, m, w, q);
            let k2 = s1.index()[q].0;
            assert(s1.table()[k2].positions@ == material_structure_spec(m, w, q));
            assert(old_material_with_members(s1, m, c, k2));
            assert(old_material_with_members(s1, m, c, k));
            lemma_refreshed_material(s0, s1, m, w, k);
            let c1 = s1.table()[k].positions@;
            let q1 = choose|q1: Cell| m.contains_key(q1) && #[trigger] c1.contains(q1) && c1 == material_structure_spec(m, w, q1);
            assert(holds_id(m, c1, m[q1].0));
            assert(holds_id(m, c, m[q1].0));
            let r = choose|r: Cell| c.contains(r) && m.contains_key(r) && #[trigger] m[r].0 == m[q1].0;
            if r != q1 {
                assert(m[r] != m[q1]);
            }
            lemma_structure_of_member(m, w, q, q1);
        }
    }
    // and every structure of the first refresh is still there
    assert forall|k: u64| #[trigger] s1.table().contains_key(k) implies s2.table().contains_key(k) by {
        if s1.table()[k].kind == StructureKind::Factory {
        } else {
            lemma_refreshed_material(s0, s1, m, w, k);
            let c1 = s1.table()[k].positions@;
            let q = choose|q: Cell| m.contains_key(q) && #[trigger] c1.contains(q) && c1 == material_structure_spec(m, w, q);
            assert(s2.index().contains_key(q));
            let k2 = s2.index()[q].0;
            assert(s2.table().contains_key(k2));
            assert(s2.table()[k2].positions@.contains(q));
            assert(s1.table()[k2].positions@.contains(q));
            s1.lemma_entry(k);
            s1.lemma_entry(k2);
            assert(s1.index()[q] == s1.table()[k].id);
            assert(s1.index()[q] == s1.table()[k2].id);
        }
    }
    assert forall|p: Cell| #[trigger] s2.index().contains_key(p) == s1.index().contains_key(p) by {
        if s1.index().contains_key(p) && !m.contains_key(p) {
            let k = s1.index()[p].0;
            if s1.table()[k].kind != StructureKind::Factory {
                lemma_refreshed_material(s0, s1, m, w, k);
                let c1 = s1.table()[k].positions@;
                let q = choose|q: Cell| m.contains_key(q) && #[trigger] c1.contains(q) && c1 == material_structure_spec(m, w, q);
                assert(c1.contains(p));
            }
        }
    }
    assert forall|p: Cell| #[trigger] s1.index().contains_key(p) implies s2.index()[p] == s1.index()[p] by {
        assert(s2.index().contains_key(p));
        let k2 = s2.index()[p].0;
        assert(s2.table()[k2].positions@.contains(p));
        assert(s1.table().contains_key(k2));
        assert(s1.table()[k2].positions@.contains(p));
        s1.lemma_entry(k2);
        s2.lemma_entry(k2);
        assert(s2.index()[p] == s2.table()[k2].id);
        assert(s1.index()[p] == s1.table()[k2].id);
    }
}

} // verus!
