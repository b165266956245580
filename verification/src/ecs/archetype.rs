//! Archetypes: groups of entities that share exactly the same set of component
//! types, stored column by column (one byte column per component type).

use vstd::prelude::*;
use crate::ecs::entity::Entity;

verus! {

/// The identity of a component type. Archetype signatures are kept sorted by
/// the number it carries.
#[derive(Copy, Clone, PartialEq, Eq, Structural, Hash, Debug)]
pub struct ComponentTypeId(pub u64);

/// The bytes of row `row` in a column of elements `stride` bytes long start here.
pub open spec fn row_start(stride: nat, row: nat) -> int {
    (row * stride) as int
}

/// `data` with the `bytes.len()` bytes starting at `start` replaced by `bytes`.
pub open spec fn overwrite(data: Seq<u8>, start: int, bytes: Seq<u8>) -> Seq<u8> {
    Seq::new(
        data.len(),
        |i: int|
            if start <= i < start + bytes.len() {
                bytes[i - start]
            } else {
                data[i]
            },
    )
}

/// `data` after the swap-remove of row `row`: the last `stride` bytes are
/// moved over the row, then the column is shortened by `stride`.
pub open spec fn swap_removed(data: Seq<u8>, stride: nat, row: nat) -> Seq<u8> {
    let last_start = data.len() - stride;
    let start = row_start(stride, row);
    Seq::new(
        (data.len() - stride) as nat,
        |i: int|
            if start <= i < start + stride {
                data[last_start + (i - start)]
            } else {
                data[i]
            },
    )
}

/// The mathematical state of a column.
pub struct ColumnModel {
    pub type_id: ComponentTypeId,
    pub stride: nat,
    pub data: Seq<u8>,
}

impl ColumnModel {
    /// The row `row` of the column holds a whole element.
    pub open spec fn holds_row(self, row: nat) -> bool {
        row_start(self.stride, row) + self.stride <= self.data.len()
    }

    /// The bytes of the component at row `row`.
    pub open spec fn row_bytes(self, row: nat) -> Seq<u8> {
        let start = row_start(self.stride, row);
        self.data.subrange(start, start + self.stride)
    }

    /// The column after the swap-remove of row `row`.
    pub open spec fn swap_remove(self, row: nat) -> ColumnModel {
        ColumnModel { data: swap_removed(self.data, self.stride, row), ..self }
    }
}

/// The mathematical state of an archetype.
pub struct ArchetypeModel {
    pub signature: Seq<ComponentTypeId>,
    pub entities: Seq<Entity>,
    pub columns: Seq<ColumnModel>,
}

impl ArchetypeModel {
    /// The archetype after the swap-remove of row `row`.
    pub open spec fn remove_row(self, row: nat) -> ArchetypeModel {
        ArchetypeModel {
            signature: self.signature,
            entities: self.entities.update(row as int, self.entities.last()).drop_last(),
            columns: self.columns.map_values(|c: ColumnModel| c.swap_remove(row)),
        }
    }

    /// The entity that `remove_row(row)` moves into row `row`, if any.
    pub open spec fn moved_by_remove(self, row: nat) -> Option<Entity> {
        if row + 1 < self.entities.len() {
            Some(self.entities.last())
        } else {
            None
        }
    }

    /// The type id and the stride of each column, column by column.
    pub open spec fn layout(self) -> Seq<(ComponentTypeId, nat)> {
        self.columns.map_values(|c: ColumnModel| (c.type_id, c.stride))
    }

    /// The bytes of row `row` in each column, column by column.
    pub open spec fn row(self, row: nat) -> Seq<Seq<u8>> {
        self.columns.map_values(|c: ColumnModel| c.row_bytes(row))
    }

    /// The archetype after appending `e` as a new last row, with `rows[k]`
    /// as its element of column `k`.
    pub open spec fn push_row(self, e: Entity, rows: Seq<Seq<u8>>) -> ArchetypeModel {
        ArchetypeModel {
            signature: self.signature,
            entities: self.entities.push(e),
            columns: Seq::new(
                self.columns.len(),
                |k: int| ColumnModel { data: self.columns[k].data + rows[k], ..self.columns[k] },
            ),
        }
    }

    /// The columns match the signature one to one, and each holds one
    /// element per entity.
    pub open spec fn wf(self) -> bool {
        &&& self.columns.len() == self.signature.len()
        &&& forall|k: int| 0 <= k < self.columns.len() ==> (#[trigger] self.columns[k]).type_id == self.signature[k]
        &&& forall|k: int|
            0 <= k < self.columns.len() ==> (#[trigger] self.columns[k]).data.len() == self.entities.len()
                * self.columns[k].stride
    }
}

/// The raw bytes of one component type, one element of `stride` bytes per row.
pub struct ComponentColumn {
    pub type_id: ComponentTypeId,
    pub stride: usize,
    pub data: Vec<u8>,
}

impl View for ComponentColumn {
    type V = ColumnModel;

    open spec fn view(&self) -> ColumnModel {
        ColumnModel { type_id: self.type_id, stride: self.stride as nat, data: self.data@ }
    }
}

impl ComponentColumn {
    pub fn new(type_id: ComponentTypeId, stride: usize) -> (c: Self)
        ensures
            c.type_id == type_id,
            c.stride == stride,
            c.data@ == Seq::<u8>::empty(),
    {
        Self { type_id, stride, data: Vec::new() }
    }

    /// Reads the bytes of the component at row `row`.
    pub fn get_bytes(&self, row: usize) -> (r: &[u8])
        requires
            self@.holds_row(row as nat),
        ensures
            r@ == self@.row_bytes(row as nat),
    {
        let len = self.data.len();
        proof { lemma_row_fits(len as nat, self.stride, row); }
        let start = row * self.stride;
        vstd::slice::slice_subrange(self.data.as_slice(), start, start + self.stride)
    }

    /// Writes the bytes of the component at row `row`.
    pub fn set_bytes(&mut self, row: usize, bytes: &[u8])
        requires
            old(self)@.holds_row(row as nat),
            bytes@.len() == old(self).stride,
        ensures
            final(self)@ == (ColumnModel {
                data: overwrite(old(self)@.data, row_start(old(self)@.stride, row as nat), bytes@),
                ..old(self)@
            }),
    {
        let len = self.data.len();
        proof { lemma_row_fits(len as nat, self.stride, row); }
        let start = row * self.stride;
        let mut k: usize = 0;
        while k < self.stride
            invariant
                self.type_id == old(self).type_id,
                self.stride == old(self).stride,
                start == row_start(self.stride as nat, row as nat),
                start + self.stride <= self.data@.len(),
                bytes@.len() == self.stride,
                k <= self.stride,
                self.data@.len() == old(self).data@.len(),
                self.data@.len() == len,
                forall|i: int|
                    0 <= i < self.data@.len() ==> #[trigger] self.data@[i] == if start <= i < start + k {
                        bytes@[i - start]
                    } else {
                        old(self).data@[i]
                    },
            decreases self.stride - k,
        {
            self.data.set(start + k, bytes[k]);
            k = k + 1;
        }
        assert(self.data@ =~= overwrite(old(self).data@, start as int, bytes@));
        assert(self@ =~= (ColumnModel { data: overwrite(old(self)@.data, start as int, bytes@), ..old(self)@ }));
    }

    /// Appends one component at the end of the column.
    pub fn push_bytes(&mut self, bytes: &[u8])
        ensures
            final(self)@ == (ColumnModel { data: old(self)@.data + bytes@, ..old(self)@ }),
    {
        let mut k: usize = 0;
        while k < bytes.len()
            invariant
                self.type_id == old(self).type_id,
                self.stride == old(self).stride,
                k <= bytes@.len(),
                self.data@ == old(self).data@ + bytes@.subrange(0, k as int),
            decreases bytes@.len() - k,
        {
            self.data.push(bytes[k]);
            k = k + 1;
            assert(bytes@.subrange(0, k as int) =~= bytes@.subrange(0, k - 1).push(bytes@[k - 1]));
        }
        assert(bytes@.subrange(0, bytes@.len() as int) =~= bytes@);
        assert(self@ =~= (ColumnModel { data: old(self)@.data + bytes@, ..old(self)@ }));
    }

    /// Removes row `row` by moving the last element over it.
    pub fn swap_remove(&mut self, row: usize)
        requires
            old(self)@.holds_row(row as nat),
        ensures
            final(self)@ == old(self)@.swap_remove(row as nat),
    {
        let last_start = self.data.len() - self.stride;
        let len = self.data.len();
        proof { lemma_row_fits(len as nat, self.stride, row); }
        let start = row * self.stride;
        let mut k: usize = 0;
        while k < self.stride
            invariant
                self.type_id == old(self).type_id,
                self.stride == old(self).stride,
                start == row_start(self.stride as nat, row as nat),
                last_start == old(self).data@.len() - self.stride,
                start <= last_start,
                self.data@.len() == old(self).data@.len(),
                self.data@.len() == len,
                k <= self.stride,
                forall|i: int|
                    0 <= i < self.data@.len() ==> #[trigger] self.data@[i] == if start <= i < start + k {
                        old(self).data@[last_start + (i - start)]
                    } else {
                        old(self).data@[i]
                    },
            decreases self.stride - k,
        {
            let b = self.data[last_start + k];
            self.data.set(start + k, b);
            k = k + 1;
        }
        let new_len = self.data.len() - self.stride;
        self.data.truncate(new_len);
        assert(self.data@ =~= swap_removed(old(self).data@, old(self)@.stride, row as nat));
        assert(self@ =~= old(self)@.swap_remove(row as nat));
    }
}

/// The numbers of the type ids in `s` strictly increase.
pub open spec fn strictly_sorted(s: Seq<ComponentTypeId>) -> bool {
    forall|i: int, j: int| 0 <= i < j < s.len() ==> (#[trigger] s[i]).0 < (#[trigger] s[j]).0
}

/// The place of `t` in the sorted signature `s`: after every smaller id.
pub open spec fn insert_pos(s: Seq<ComponentTypeId>, t: ComponentTypeId) -> int
    decreases s.len(),
{
    if s.len() == 0 {
        0
    } else if s.last().0 < t.0 {
        s.len() as int
    } else {
        insert_pos(s.drop_last(), t)
    }
}

/// In a sorted signature, the ids before `insert_pos(s, t)` are smaller
/// than `t` and the others are not; that place is the only one that splits
/// `s` so.
pub proof fn lemma_insert_pos(s: Seq<ComponentTypeId>, t: ComponentTypeId)
    requires
        strictly_sorted(s),
    ensures
        0 <= insert_pos(s, t) <= s.len(),
        forall|k: int| 0 <= k < insert_pos(s, t) ==> (#[trigger] s[k]).0 < t.0,
        forall|k: int| insert_pos(s, t) <= k < s.len() ==> (#[trigger] s[k]).0 >= t.0,
    decreases s.len(),
{
    if s.len() > 0 {
        let init = s.drop_last();
        assert(strictly_sorted(init)) by {
            assert forall|i: int, j: int| 0 <= i < j < init.len() implies (#[trigger] init[i]).0 < (#[trigger] init[j]).0 by {
                assert(s[i].0 < s[j].0);
            }
        }
        lemma_insert_pos(init, t);
        if s.last().0 < t.0 {
            assert forall|k: int| 0 <= k < s.len() implies (#[trigger] s[k]).0 < t.0 by {
                if k < s.len() - 1 {
                    assert(s[k].0 < s[s.len() - 1].0);
                }
            }
        } else {
            assert forall|k: int| 0 <= k < insert_pos(s, t) implies (#[trigger] s[k]).0 < t.0 by {
                assert(init[k] == s[k]);
            }
            assert forall|k: int| insert_pos(s, t) <= k < s.len() implies (#[trigger] s[k]).0 >= t.0 by {
                if k < s.len() - 1 {
                    assert(init[k] == s[k]);
                }
            }
        }
    }
}

/// Putting an id that is not in a sorted signature at its place keeps the
/// signature sorted, and adds exactly that id.
pub proof fn lemma_sorted_insert(s: Seq<ComponentTypeId>, t: ComponentTypeId)
    requires
        strictly_sorted(s),
        !s.contains(t),
    ensures
        strictly_sorted(s.insert(insert_pos(s, t), t)),
        same_elements(s.insert(insert_pos(s, t), t), s.push(t)),
{
    let p = insert_pos(s, t);
    lemma_insert_pos(s, t);
    s.insert_ensures(p, t);
    let r = s.insert(p, t);
    assert forall|k: int| p <= k < s.len() implies (#[trigger] s[k]).0 > t.0 by {
        assert(s[k] != t);
    }
    assert forall|i: int, j: int| 0 <= i < j < r.len() implies (#[trigger] r[i]).0 < (#[trigger] r[j]).0 by {
        if j < p {
            assert(r[i] == s[i] && r[j] == s[j]);
        } else if j == p {
            assert(r[i] == s[i]);
        } else if i < p {
            assert(r[i] == s[i] && r[j] == s[j - 1]);
        } else if i == p {
            assert(r[j] == s[j - 1]);
        } else {
            assert(r[i] == s[i - 1] && r[j] == s[j - 1]);
        }
    }
    assert forall|u: ComponentTypeId| r.contains(u) <==> s.push(t).contains(u) by {
        let q = s.push(t);
        if r.contains(u) {
            let k = choose|k: int| 0 <= k < r.len() && r[k] == u;
            if k < p {
                assert(q[k] == u);
            } else if k == p {
                assert(q[s.len() as int] == u);
            } else {
                assert(q[k - 1] == u);
            }
        }
        if q.contains(u) {
            let k = choose|k: int| 0 <= k < q.len() && q[k] == u;
            if k == s.len() {
                assert(r[p] == u);
            } else if k < p {
                assert(r[k] == u);
            } else {
                assert(r[k + 1] == u);
            }
        }
    }
}

/// `a` and `b` hold the same type ids, whatever their order or repetitions.
pub open spec fn same_elements(a: Seq<ComponentTypeId>, b: Seq<ComponentTypeId>) -> bool {
    forall|t: ComponentTypeId| a.contains(t) <==> b.contains(t)
}

/// The signature of an archetype: the sorted set of its component type ids.
#[derive(Clone, PartialEq, Eq, Hash, Debug)]
pub struct ArchetypeSignature(pub Vec<ComponentTypeId>);

impl ArchetypeSignature {
    /// Builds the signature of a list of type ids: sorted, without repetition.
    pub fn new(types: Vec<ComponentTypeId>) -> (sig: Self)
        ensures
            strictly_sorted(sig.0@),
            same_elements(sig.0@, types@),
    {
        let mut out: Vec<ComponentTypeId> = Vec::new();
        let mut i: usize = 0;
        while i < types.len()
            invariant
                i <= types@.len(),
                strictly_sorted(out@),
                same_elements(out@, types@.subrange(0, i as int)),
            decreases types@.len() - i,
        {
            let t = types[i];
            let mut p: usize = 0;
            while p < out.len() && out[p].0 < t.0
                invariant
                    p <= out@.len(),
                    forall|k: int| 0 <= k < p ==> (#[trigger] out@[k]).0 < t.0,
                decreases out@.len() - p,
            {
                p = p + 1;
            }
            let ghost before = out@;
            let ghost pre0 = types@.subrange(0, i as int);
            let ghost pre1 = types@.subrange(0, i + 1);
            if p == out.len() || out[p].0 != t.0 {
                out.insert(p, t);
                proof {
                    assert forall|a: int, b: int| 0 <= a < b < out@.len() implies (#[trigger] out@[a]).0 < (#[trigger] out@[b]).0 by {
                        if a < p as int && b > p as int {
                            assert(before[a].0 < t.0);
                            assert(out@[b] == before[b - 1]);
                            if p < before.len() {
                                assert(before[p as int].0 > t.0);
                                if b - 1 > p as int {
                                    assert(before[p as int].0 < before[b - 1].0);
                                }
                            }
                        } else if a == p as int && b > p as int {
                            assert(out@[b] == before[b - 1]);
                            assert(before[p as int].0 > t.0);
                            if b - 1 > p as int {
                                assert(before[p as int].0 < before[b - 1].0);
                            }
                        } else if a > p as int {
                            assert(out@[a] == before[a - 1]);
                            assert(out@[b] == before[b - 1]);
                        }
                    }
                    assert forall|x: ComponentTypeId| out@.contains(x) <==> pre1.contains(x) by {
                        if out@.contains(x) {
                            let k = choose|k: int| 0 <= k < out@.len() && out@[k] == x;
                            if k == p as int {
                                assert(pre1[i as int] == x);
                            } else if k < p as int {
                                assert(before.contains(x));
                                assert(pre0.contains(x));
                                let m = choose|m: int| 0 <= m < i && pre0[m] == x;
                                assert(pre1[m] == x);
                            } else {
                                assert(before[k - 1] == x);
                                assert(before.contains(x));
                                assert(pre0.contains(x));
                                let m = choose|m: int| 0 <= m < i && pre0[m] == x;
                                assert(pre1[m] == x);
                            }
                        }
                        if pre1.contains(x) {
                            let m = choose|m: int| 0 <= m < i + 1 && pre1[m] == x;
                            if m == i as int {
                                assert(out@[p as int] == x);
                            } else {
                                assert(pre0[m] == x);
                                assert(before.contains(x));
                                let k = choose|k: int| 0 <= k < before.len() && before[k] == x;
                                if k < p as int {
                                    assert(out@[k] == x);
                                } else {
                                    assert(out@[k + 1] == x);
                                }
                            }
                        }
                    }
                }
            } else {
                proof {
                    assert(out@[p as int] == t);
                    assert forall|x: ComponentTypeId| out@.contains(x) <==> pre1.contains(x) by {
                        if out@.contains(x) {
                            assert(pre0.contains(x));
                            let m = choose|m: int| 0 <= m < i && pre0[m] == x;
                            assert(pre1[m] == x);
                        }
                        if pre1.contains(x) {
                            let m = choose|m: int| 0 <= m < i + 1 && pre1[m] == x;
                            if m < i as int {
                                assert(pre0[m] == x);
                            } else {
                                assert(out@[p as int] == x);
                            }
                        }
                    }
                }
            }
            i = i + 1;
        }
        assert(types@.subrange(0, types@.len() as int) =~= types@);
        ArchetypeSignature(out)
    }

    /// Whether the signature holds `type_id`.
    pub fn contains(&self, type_id: &ComponentTypeId) -> (r: bool)
        ensures
            r == self.0@.contains(*type_id),
    {
        let mut i: usize = 0;
        while i < self.0.len()
            invariant
                i <= self.0@.len(),
                forall|k: int| 0 <= k < i ==> self.0@[k] != *type_id,
            decreases self.0@.len() - i,
        {
            if self.0[i].0 == type_id.0 {
                assert(self.0@[i as int] == *type_id);
                return true;
            }
            i = i + 1;
        }
        false
    }
}

/// A group of entities sharing one set of component types: the entities in
/// row order, and one byte column per component type.
pub struct Archetype {
    pub signature: ArchetypeSignature,
    pub entities: Vec<Entity>,
    pub columns: Vec<ComponentColumn>,
}

impl View for Archetype {
    type V = ArchetypeModel;

    open spec fn view(&self) -> ArchetypeModel {
        ArchetypeModel {
            signature: self.signature.0@,
            entities: self.entities@,
            columns: self.columns@.map_values(|c: ComponentColumn| c@),
        }
    }
}

impl Archetype {
    /// An empty archetype with one column per `(type id, stride)` pair.
    pub fn new(signature: ArchetypeSignature, strides: Vec<(ComponentTypeId, usize)>) -> (a: Self)
        ensures
            a.signature == signature,
            a.entities@ == Seq::<Entity>::empty(),
            a.columns@.len() == strides@.len(),
            forall|k: int|
                0 <= k < strides@.len() ==> {
                    &&& (#[trigger] a.columns@[k]).type_id == strides@[k].0
                    &&& a.columns@[k].stride == strides@[k].1
                    &&& a.columns@[k].data@ == Seq::<u8>::empty()
                },
    {
        let mut columns: Vec<ComponentColumn> = Vec::new();
        let mut k: usize = 0;
        while k < strides.len()
            invariant
                k <= strides@.len(),
                columns@.len() == k,
                forall|j: int|
                    0 <= j < k ==> {
                        &&& (#[trigger] columns@[j]).type_id == strides@[j].0
                        &&& columns@[j].stride == strides@[j].1
                        &&& columns@[j].data@ == Seq::<u8>::empty()
                    },
            decreases strides@.len() - k,
        {
            let (tid, stride) = strides[k];
            columns.push(ComponentColumn::new(tid, stride));
            k = k + 1;
        }
        Self { signature, entities: Vec::new(), columns }
    }

    /// The number of entities (rows) of the archetype.
    pub fn len(&self) -> (n: usize)
        ensures
            n == self.entities@.len(),
    {
        self.entities.len()
    }

    /// The index of the first column of type `type_id`, if there is one.
    pub fn column_index(&self, type_id: ComponentTypeId) -> (r: Option<usize>)
        ensures
            match r {
                Some(i) => column_index_of(self@.columns, type_id) == Some(i as int),
                None => column_index_of(self@.columns, type_id) is None,
            },
    {
        let mut i: usize = 0;
        while i < self.columns.len()
            invariant
                i <= self.columns@.len(),
                forall|k: int| 0 <= k < i ==> (#[trigger] self@.columns[k]).type_id != type_id,
            decreases self.columns@.len() - i,
        {
            if self.columns[i].type_id.0 == type_id.0 {
                proof { lemma_column_index_of_first(self@.columns, type_id, i as int); }
                return Some(i);
            }
            i = i + 1;
        }
        proof { lemma_column_index_of_none(self@.columns, type_id); }
        None
    }

    /// Appends `entity` as a new last row, with `rows[k]` as its element of
    /// column `k`.
    pub fn push_row(&mut self, entity: Entity, rows: &Vec<Vec<u8>>)
        requires
            rows@.len() == old(self).columns@.len(),
        ensures
            final(self)@ == old(self)@.push_row(entity, rows@.map_values(|v: Vec<u8>| v@)),
    {
        self.entities.push(entity);
        let mut k: usize = 0;
        while k < self.columns.len()
            invariant
                self.signature == old(self).signature,
                self.entities@ == old(self).entities@.push(entity),
                rows@.len() == self.columns@.len(),
                k <= self.columns@.len(),
                self.columns@.len() == old(self).columns@.len(),
                forall|j: int|
                    0 <= j < k ==> (#[trigger] self.columns@[j])@ == (ColumnModel {
                        data: old(self).columns@[j]@.data + rows@[j]@,
                        ..old(self).columns@[j]@
                    }),
                forall|j: int| k <= j < self.columns@.len() ==> #[trigger] self.columns@[j] == old(self).columns@[j],
            decreases self.columns@.len() - k,
        {
            self.columns[k].push_bytes(rows[k].as_slice());
            k = k + 1;
        }
        assert(self@.columns =~= old(self)@.push_row(entity, rows@.map_values(|v: Vec<u8>| v@)).columns);
    }

    /// Every column holds the element of row `row`.
    pub open spec fn columns_hold_row(&self, row: nat) -> bool {
        forall|k: int| 0 <= k < self@.columns.len() ==> (#[trigger] self@.columns[k]).holds_row(row)
    }

    /// Removes row `row` by moving the last row over it (in the entity list
    /// and in every column); returns the entity that moved, if one did.
    pub fn remove_row(&mut self, row: usize) -> (moved: Option<Entity>)
        requires
            row < old(self).entities@.len(),
            old(self).columns_hold_row(row as nat),
        ensures
            final(self)@ == old(self)@.remove_row(row as nat),
            moved == old(self)@.moved_by_remove(row as nat),
    {
        let last = self.entities.len() - 1;
        let swapped = if row < last {
            Some(self.entities[last])
        } else {
            None
        };
        self.entities.swap_remove(row);
        let mut k: usize = 0;
        while k < self.columns.len()
            invariant
                self.signature == old(self).signature,
                self.entities@ == old(self).entities@.update(row as int, old(self).entities@.last()).drop_last(),
                k <= self.columns@.len(),
                self.columns@.len() == old(self).columns@.len(),
                row < old(self).entities@.len(),
                forall|j: int| 0 <= j < k ==> (#[trigger] self.columns@[j])@ == old(self).columns@[j]@.swap_remove(row as nat),
                forall|j: int| k <= j < self.columns@.len() ==> #[trigger] self.columns@[j] == old(self).columns@[j],
                old(self).columns_hold_row(row as nat),
            decreases self.columns@.len() - k,
        {
            assert(old(self)@.columns[k as int] == old(self).columns@[k as int]@);
            assert(self.columns@[k as int]@.holds_row(row as nat));
            self.columns[k].swap_remove(row);
            k = k + 1;
        }
        assert(self@.columns =~= old(self)@.remove_row(row as nat).columns);
        swapped
    }
}

/// The index of the first column of type `t`, if there is one.
pub open spec fn column_index_of(cols: Seq<ColumnModel>, t: ComponentTypeId) -> Option<int>
    decreases cols.len(),
{
    if cols.len() == 0 {
        None
    } else if cols.last().type_id == t && column_index_of(cols.drop_last(), t) is None {
        Some(cols.len() - 1)
    } else {
        column_index_of(cols.drop_last(), t)
    }
}

/// `column_index_of` names the first column of type `t`.
pub proof fn lemma_column_index_of_first(cols: Seq<ColumnModel>, t: ComponentTypeId, i: int)
    requires
        0 <= i < cols.len(),
        cols[i].type_id == t,
        forall|k: int| 0 <= k < i ==> (#[trigger] cols[k]).type_id != t,
    ensures
        column_index_of(cols, t) == Some(i),
    decreases cols.len(),
{
    if i < cols.len() - 1 {
        lemma_column_index_of_first(cols.drop_last(), t, i);
    } else {
        lemma_column_index_of_none(cols.drop_last(), t);
    }
}

/// `column_index_of` finds nothing when no column has type `t`.
pub proof fn lemma_column_index_of_none(cols: Seq<ColumnModel>, t: ComponentTypeId)
    requires
        forall|k: int| 0 <= k < cols.len() ==> (#[trigger] cols[k]).type_id != t,
    ensures
        column_index_of(cols, t) is None,
    decreases cols.len(),
{
    if cols.len() > 0 {
        lemma_column_index_of_none(cols.drop_last(), t);
    }
}

/// What `column_index_of` finds is a column of type `t`, and no earlier
/// column has that type; when it finds nothing, no column has it.
pub proof fn lemma_column_index_of_spec(cols: Seq<ColumnModel>, t: ComponentTypeId)
    ensures
        match column_index_of(cols, t) {
            Some(i) => 0 <= i < cols.len() && cols[i].type_id == t && forall|k: int|
                0 <= k < i ==> (#[trigger] cols[k]).type_id != t,
            None => forall|k: int| 0 <= k < cols.len() ==> (#[trigger] cols[k]).type_id != t,
        },
    decreases cols.len(),
{
    if cols.len() > 0 {
        let init = cols.drop_last();
        lemma_column_index_of_spec(init, t);
        assert forall|k: int| 0 <= k < init.len() implies init[k] == cols[k] by {}
    }
}

/// `column_index_of` only looks at the type ids of the columns.
pub proof fn lemma_column_index_of_types(c1: Seq<ColumnModel>, c2: Seq<ColumnModel>, t: ComponentTypeId)
    requires
        c1.len() == c2.len(),
        forall|k: int| 0 <= k < c1.len() ==> (#[trigger] c1[k]).type_id == c2[k].type_id,
    ensures
        column_index_of(c1, t) == column_index_of(c2, t),
    decreases c1.len(),
{
    if c1.len() > 0 {
        let d1 = c1.drop_last();
        let d2 = c2.drop_last();
        assert forall|k: int| 0 <= k < d1.len() implies (#[trigger] d1[k]).type_id == d2[k].type_id by {
            assert(c1[k].type_id == c2[k].type_id);
        }
        lemma_column_index_of_types(d1, d2, t);
    }
}

/// In a well-formed archetype with a sorted signature, the column of a type
/// id is the one at its place in the signature.
pub proof fn lemma_column_of_sorted(arch: ArchetypeModel, t: ComponentTypeId)
    requires
        arch.wf(),
        strictly_sorted(arch.signature),
    ensures
        forall|k: int| 0 <= k < arch.signature.len() && arch.signature[k] == t ==> column_index_of(arch.columns, t) == Some(k),
        !arch.signature.contains(t) ==> column_index_of(arch.columns, t) is None,
{
    assert forall|k: int| 0 <= k < arch.signature.len() && arch.signature[k] == t implies column_index_of(arch.columns, t)
        == Some(k) by {
        assert forall|j: int| 0 <= j < k implies (#[trigger] arch.columns[j]).type_id != t by {
            assert(arch.signature[j].0 < arch.signature[k].0);
        }
        lemma_column_index_of_first(arch.columns, t, k);
    }
    if !arch.signature.contains(t) {
        assert forall|j: int| 0 <= j < arch.columns.len() implies (#[trigger] arch.columns[j]).type_id != t by {
            assert(arch.columns[j].type_id == arch.signature[j]);
        }
        lemma_column_index_of_none(arch.columns, t);
    }
}

/// Appending a row whose elements have the columns' strides keeps an
/// archetype well formed; the new last row reads back the bytes appended and
/// every earlier row keeps its bytes.
pub proof fn lemma_push_row(arch: ArchetypeModel, e: Entity, rows: Seq<Seq<u8>>)
    requires
        arch.wf(),
        rows.len() == arch.columns.len(),
        forall|k: int| 0 <= k < rows.len() ==> (#[trigger] rows[k]).len() == arch.columns[k].stride,
    ensures
        arch.push_row(e, rows).wf(),
        arch.push_row(e, rows).layout() == arch.layout(),
        forall|k: int|
            0 <= k < rows.len() ==> (#[trigger] arch.push_row(e, rows).columns[k]).row_bytes(arch.entities.len()) == rows[k],
        forall|k: int, r: nat|
            0 <= k < rows.len() && r < arch.entities.len() ==> #[trigger] arch.push_row(e, rows).columns[k].row_bytes(r)
                == arch.columns[k].row_bytes(r),
{
    let n = arch.push_row(e, rows);
    let len = arch.entities.len();
    assert forall|k: int| 0 <= k < rows.len() implies (#[trigger] n.columns[k]).row_bytes(len) == rows[k]
        && n.columns[k].data.len() == n.entities.len() * n.columns[k].stride by {
        let c = arch.columns[k];
        lemma_push_row_reads_back(c.data, c.stride, len, rows[k]);
    }
    assert forall|k: int, r: nat| 0 <= k < rows.len() && r < len implies #[trigger] n.columns[k].row_bytes(r)
        == arch.columns[k].row_bytes(r) by {
        let c = arch.columns[k];
        assert(c.data.len() == len * c.stride);
        assert(row_start(c.stride, r) + c.stride <= c.data.len()) by (nonlinear_arith)
            requires
                r < len,
                c.data.len() == len * c.stride,
        ;
        lemma_append_keeps_rows(c.data, c.stride, r, rows[k]);
    }
    assert(n.layout() =~= arch.layout());
}

/// Two strictly sorted sequences with the same elements are equal.
pub proof fn lemma_sorted_unique(a: Seq<ComponentTypeId>, b: Seq<ComponentTypeId>)
    requires
        strictly_sorted(a),
        strictly_sorted(b),
        same_elements(a, b),
    ensures
        a == b,
    decreases a.len(),
{
    if a.len() == 0 {
        if b.len() > 0 {
            assert(b.contains(b[0]));
        }
    } else if b.len() == 0 {
        assert(a.contains(a[0]));
    } else {
        assert(a.contains(a[0]));
        assert(b.contains(b[0]));
        let ka = choose|k: int| 0 <= k < a.len() && a[k] == b[0];
        let kb = choose|k: int| 0 <= k < b.len() && b[k] == a[0];
        if ka > 0 {
            assert(a[0].0 < a[ka].0);
        }
        if kb > 0 {
            assert(b[0].0 < b[kb].0);
        }
        assert(a[0] == b[0]);
        let a1 = a.drop_first();
        let b1 = b.drop_first();
        assert forall|t: ComponentTypeId| a1.contains(t) <==> b1.contains(t) by {
            if a1.contains(t) {
                let k = choose|k: int| 0 <= k < a1.len() && a1[k] == t;
                assert(a[k + 1] == t);
                assert(a[0].0 < t.0);
                assert(b.contains(t));
                let m = choose|m: int| 0 <= m < b.len() && b[m] == t;
                assert(m != 0);
                assert(b1[m - 1] == t);
            }
            if b1.contains(t) {
                let k = choose|k: int| 0 <= k < b1.len() && b1[k] == t;
                assert(b[k + 1] == t);
                assert(b[0].0 < t.0);
                assert(a.contains(t));
                let m = choose|m: int| 0 <= m < a.len() && a[m] == t;
                assert(m != 0);
                assert(a1[m - 1] == t);
            }
        }
        lemma_sorted_unique(a1, b1);
        assert(a =~= seq![a[0]] + a1);
        assert(b =~= seq![b[0]] + b1);
    }
}

/// A signature does not depend on the order or the repetitions of the type
/// ids it is built from: lists with the same elements give the same signature.
pub proof fn lemma_signature_is_canonical(
    types1: Seq<ComponentTypeId>,
    types2: Seq<ComponentTypeId>,
    sig1: Seq<ComponentTypeId>,
    sig2: Seq<ComponentTypeId>,
)
    requires
        strictly_sorted(sig1),
        same_elements(sig1, types1),
        strictly_sorted(sig2),
        same_elements(sig2, types2),
        same_elements(types1, types2),
    ensures
        sig1 == sig2,
{
    lemma_sorted_unique(sig1, sig2);
}

/// After an overwrite, the row reads back the bytes written; the length of
/// the column is unchanged.
pub proof fn lemma_overwrite_row(data: Seq<u8>, stride: nat, row: nat, bytes: Seq<u8>)
    requires
        row_start(stride, row) + stride <= data.len(),
        bytes.len() == stride,
    ensures
        overwrite(data, row_start(stride, row), bytes).len() == data.len(),
        overwrite(data, row_start(stride, row), bytes).subrange(row_start(stride, row), row_start(stride, row) + stride)
            == bytes,
{
    let start = row_start(stride, row);
    assert(overwrite(data, start, bytes).subrange(start, start + stride) =~= bytes);
}

/// In a column of `n` rows, the bytes of one row are untouched by an
/// overwrite of another row.
pub proof fn lemma_overwrite_other_row(data: Seq<u8>, s: nat, r: nat, r2: nat, bytes: Seq<u8>)
    requires
        r != r2,
        row_start(s, r) + s <= data.len(),
        row_start(s, r2) + s <= data.len(),
        bytes.len() == s,
    ensures
        overwrite(data, row_start(s, r), bytes).subrange(row_start(s, r2), row_start(s, r2) + s) == data.subrange(
            row_start(s, r2),
            row_start(s, r2) + s,
        ),
{
    let st = row_start(s, r);
    let st2 = row_start(s, r2);
    if r2 < r {
        assert(st2 + s <= st) by (nonlinear_arith)
            requires
                r2 < r,
                st == r * s,
                st2 == r2 * s,
        ;
    } else {
        assert(st + s <= st2) by (nonlinear_arith)
            requires
                r < r2,
                st == r * s,
                st2 == r2 * s,
        ;
    }
    assert(overwrite(data, st, bytes).subrange(st2, st2 + s) =~= data.subrange(st2, st2 + s));
}

/// Appending to a column of `n` rows leaves the bytes of those rows alone.
pub proof fn lemma_append_keeps_rows(data: Seq<u8>, s: nat, r2: nat, bytes: Seq<u8>)
    requires
        row_start(s, r2) + s <= data.len(),
    ensures
        (data + bytes).subrange(row_start(s, r2), row_start(s, r2) + s) == data.subrange(
            row_start(s, r2),
            row_start(s, r2) + s,
        ),
{
    let st2 = row_start(s, r2);
    assert((data + bytes).subrange(st2, st2 + s) =~= data.subrange(st2, st2 + s));
}

/// After the swap-remove of row `row` from a column of `n` rows, every row
/// other than `row` and the last one keeps its bytes, and row `row` holds
/// what the last row held.
pub proof fn lemma_swap_removed_rows(data: Seq<u8>, s: nat, n: nat, row: nat, r2: nat)
    requires
        data.len() == n * s,
        row < n,
        r2 < n,
    ensures
        r2 != row && r2 + 1 < n ==> swap_removed(data, s, row).subrange(row_start(s, r2), row_start(s, r2) + s)
            == data.subrange(row_start(s, r2), row_start(s, r2) + s),
        row + 1 < n ==> swap_removed(data, s, row).subrange(row_start(s, row), row_start(s, row) + s)
            == data.subrange(row_start(s, (n - 1) as nat), row_start(s, (n - 1) as nat) + s),
{
    let st = row_start(s, row);
    let st2 = row_start(s, r2);
    let last = row_start(s, (n - 1) as nat);
    assert(last == data.len() - s) by (nonlinear_arith)
        requires
            last == (n - 1) * s,
            data.len() == n * s,
            n >= 1,
    ;
    assert(st + s <= data.len()) by (nonlinear_arith)
        requires
            st == row * s,
            data.len() == n * s,
            row < n,
    ;
    assert(st2 + s <= data.len()) by (nonlinear_arith)
        requires
            st2 == r2 * s,
            data.len() == n * s,
            r2 < n,
    ;
    let sr = swap_removed(data, s, row);
    if r2 != row && r2 + 1 < n {
        assert(st2 + s <= last) by (nonlinear_arith)
            requires
                st2 == r2 * s,
                last == (n - 1) * s,
                r2 + 1 < n,
        ;
        if r2 < row {
            assert(st2 + s <= st) by (nonlinear_arith)
                requires
                    r2 < row,
                    st == row * s,
                    st2 == r2 * s,
            ;
        } else {
            assert(st + s <= st2) by (nonlinear_arith)
                requires
                    row < r2,
                    st == row * s,
                    st2 == r2 * s,
            ;
        }
        assert(sr.subrange(st2, st2 + s) =~= data.subrange(st2, st2 + s));
    }
    if row + 1 < n {
        assert(st + s <= last) by (nonlinear_arith)
            requires
                st == row * s,
                last == (n - 1) * s,
                row + 1 < n,
        ;
        assert(sr.subrange(st, st + s) =~= data.subrange(last, last + s));
    }
}

/// Appending an element of `stride` bytes to a column of `n` rows makes it
/// row `n`: reading that row gives the bytes appended.
pub proof fn lemma_push_row_reads_back(data: Seq<u8>, stride: nat, n: nat, bytes: Seq<u8>)
    requires
        data.len() == n * stride,
        bytes.len() == stride,
    ensures
        (data + bytes).subrange(row_start(stride, n), row_start(stride, n) + stride) == bytes,
        (data + bytes).len() == (n + 1) * stride,
{
    assert(row_start(stride, n) == data.len());
    assert((data + bytes).subrange(row_start(stride, n), row_start(stride, n) + stride) =~= bytes);
    assert(n * stride + stride == (n + 1) * stride) by (nonlinear_arith);
}

/// A row that fits in a column of `len` bytes starts at most `len - stride`.
proof fn lemma_row_fits(len: nat, stride: usize, row: usize)
    requires
        row_start(stride as nat, row as nat) + stride <= len,
    ensures
        row * stride + stride <= len,
        row * stride <= len - stride,
        stride <= len,
{
}


} // verus!
