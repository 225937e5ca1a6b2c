use vstd::prelude::*;
use crate::warnings::MeshWarnings;

verus! {

/// Where the rename field of a model in the model list stands.
#[derive(Clone, Copy, Debug, PartialEq, Eq, Structural)]
pub enum RenameState {
    Idle,
    Starting,
    Editing,
}

/// The state of a model's entry in the model list.
#[derive(Clone, Copy, Debug, PartialEq, Eq, Structural)]
pub struct ModelUi {
    pub toggle: bool,
    pub rename: RenameState,
    pub locked_scale: bool,
}

impl Default for ModelUi {
    /// Collapsed, not being renamed, with the scale axes locked together.
    fn default() -> (ui: ModelUi)
        ensures
            !ui.toggle,
            ui.rename == RenameState::Idle,
            ui.locked_scale,
    {
        ModelUi { toggle: false, rename: RenameState::Idle, locked_scale: true }
    }
}

/// The id counter after handing out `id`: the next id, wrapping around after
/// the largest one.
pub open spec fn successor(id: u32) -> u32 {
    if id == u32::MAX {
        0
    } else {
        (id + 1) as u32
    }
}

/// The id that the `n`-th call of `next_id` hands out (counting from 0) on a
/// counter that starts at `start`.
pub open spec fn nth_id(start: u32, n: nat) -> u32
    decreases n,
{
    if n == 0 {
        start
    } else {
        successor(nth_id(start, (n - 1) as nat))
    }
}

/// Hands out the id that `counter` holds and moves the counter on by one,
/// wrapping around after the largest id.
pub fn next_id(counter: &mut u32) -> (id: u32)
    ensures
        id == *old(counter),
        *final(counter) == successor(*old(counter)),
{
    let id = *counter;
    *counter = counter.wrapping_add(1);
    id
}

/// Ids handed out by up to 2^32 successive calls of `next_id` on one counter
/// are all different.
pub proof fn lemma_ids_distinct(start: u32, i: nat, j: nat)
    requires
        i < j < 0x1_0000_0000,
    ensures
        nth_id(start, i) != nth_id(start, j),
{
    lemma_nth_id(start, i);
    lemma_nth_id(start, j);
    let m: int = 0x1_0000_0000;
    vstd::arithmetic::div_mod::lemma_mod_equivalence(start + j, start + i, m);
    vstd::arithmetic::div_mod::lemma_small_mod((j - i) as nat, m as nat);
}

proof fn lemma_nth_id(start: u32, n: nat)
    ensures
        nth_id(start, n) == (start + n) % 0x1_0000_0000,
    decreases n,
{
    if n > 0 {
        lemma_nth_id(start, (n - 1) as nat);
        let m: int = 0x1_0000_0000;
        vstd::arithmetic::div_mod::lemma_add_mod_noop(start + n - 1, 1, m);
        vstd::arithmetic::div_mod::lemma_small_mod(1, m as nat);
        if nth_id(start, (n - 1) as nat) == u32::MAX {
            vstd::arithmetic::div_mod::lemma_mod_self_0(m);
        } else {
            vstd::arithmetic::div_mod::lemma_small_mod((nth_id(start, (n - 1) as nat) + 1) as nat, m as nat);
        }
    }
}

/// A model placed in the workspace. `G` holds what this crate keeps opaque:
/// the mesh and its acceleration structures, the colour and exposure, and the
/// buffers it is drawn from.
pub struct Model<G> {
    pub name: String,
    pub id: u32,
    pub geometry: G,
    pub warnings: MeshWarnings,
    /// The vertices found lower than all their neighbours, once searched.
    pub overhangs: Option<Vec<u32>>,
    pub hidden: bool,
    pub ui: ModelUi,
    pub parent_model_id: Option<u32>,
}

/// What a list of overhang vertices holds.
pub open spec fn overhangs_view(o: Option<Vec<u32>>) -> Option<Seq<u32>> {
    match o {
        Some(v) => Some(v@),
        None => None,
    }
}

impl<G> Model<G> {
    /// A new, unnamed and visible model with a fresh id from `counter`, no
    /// warnings and no overhangs searched yet.
    pub fn from_mesh(geometry: G, counter: &mut u32) -> (model: Model<G>)
        ensures
            model.id == *old(counter),
            *final(counter) == successor(*old(counter)),
            model.geometry == geometry,
            model.name@ == Seq::<char>::empty(),
            model.warnings@ == 0,
            model.overhangs is None,
            !model.hidden,
            !model.ui.toggle,
            model.ui.rename == RenameState::Idle,
            model.ui.locked_scale,
            model.parent_model_id is None,
    {
        let id = next_id(counter);
        Model {
            name: String::new(),
            id,
            geometry,
            warnings: MeshWarnings::empty(),
            overhangs: None,
            hidden: false,
            ui: ModelUi::default(),
            parent_model_id: None,
        }
    }

    /// The model with its name replaced.
    pub fn with_name(self, name: String) -> (model: Model<G>)
        ensures
            model == (Model { name, ..self }),
    {
        let mut model = self;
        model.name = name;
        model
    }

    /// The model, shown or hidden.
    pub fn with_hidden(self, hidden: bool) -> (model: Model<G>)
        ensures
            model == (Model { hidden, ..self }),
    {
        let mut model = self;
        model.hidden = hidden;
        model
    }

    /// The model, marked as derived from the model with id `parent_id`.
    pub fn with_parent_model_id(self, parent_id: u32) -> (model: Model<G>)
        ensures
            model == (Model { parent_model_id: Some(parent_id), ..self }),
    {
        let mut model = self;
        model.parent_model_id = Some(parent_id);
        model
    }

    /// Records whether the model reaches past the build platform, leaving the
    /// other warnings as they were.
    pub fn set_out_of_bounds(&mut self, out_of_bounds: bool)
        ensures
            final(self).warnings@ == (if out_of_bounds {
                old(self).warnings@ | 2
            } else {
                old(self).warnings@ & !2u8
            }),
            *final(self) == (Model { warnings: final(self).warnings, ..*old(self) }),
    {
        self.warnings.set(MeshWarnings::out_of_bounds(), out_of_bounds);
    }

    /// A copy of the model under a fresh id from `counter`; the geometry is
    /// cloned by `G`'s own `clone`.
    pub fn clone_with_new_id(&self, counter: &mut u32) -> (copy: Model<G>)
        where
            G: Clone,
        ensures
            copy.id == *old(counter),
            *final(counter) == successor(*old(counter)),
            cloned(self.geometry, copy.geometry),
            copy.name@ == self.name@,
            copy.warnings == self.warnings,
            overhangs_view(copy.overhangs) == overhangs_view(self.overhangs),
            copy.hidden == self.hidden,
            copy.ui == self.ui,
            copy.parent_model_id == self.parent_model_id,
    {
        let id = next_id(counter);
        let overhangs = match &self.overhangs {
            Some(v) => Some(copy_ids(v)),
            None => None,
        };
        Model {
            name: self.name.clone(),
            id,
            geometry: self.geometry.clone(),
            warnings: self.warnings,
            overhangs,
            hidden: self.hidden,
            ui: self.ui,
            parent_model_id: self.parent_model_id,
        }
    }
}

fn copy_ids(v: &Vec<u32>) -> (copy: Vec<u32>)
    ensures
        copy@ == v@,
{
    let mut copy: Vec<u32> = Vec::new();
    let mut i: usize = 0;
    while i < v.len()
        invariant
            i <= v.len(),
            copy@ == v@.take(i as int),
        decreases v.len() - i,
    {
        copy.push(v[i]);
        proof {
            assert(v@.take(i + 1) =~= v@.take(i as int).push(v@[i as int]));
        }
        i = i + 1;
    }
    assert(v@.take(v.len() as int) =~= v@);
    copy
}

/// The models that a slicing run takes, by index: those that are not
/// hidden, in order; `None` when every model is hidden (or there are none),
/// so that there is nothing to slice.
pub fn models_to_slice<G>(models: &Vec<Model<G>>) -> (picked: Option<Vec<usize>>)
    ensures
        picked is None <==> (forall|i: int| 0 <= i < models.len() ==> #[trigger] models@[i].hidden),
        picked matches Some(ix) ==> ix@ == visible_indices(models@, models.len() as int),
        picked matches Some(ix) ==> forall|k: int|
            0 <= k < ix.len() ==> #[trigger] ix@[k] < models.len() && !models@[ix@[k] as int].hidden,
        picked matches Some(ix) ==> forall|j: int, k: int| 0 <= j < k < ix.len() ==> #[trigger] ix@[j] < #[trigger] ix@[k],
        picked matches Some(ix) ==> forall|i: int|
            0 <= i < models.len() && !(#[trigger] models@[i]).hidden ==> ix@.contains(i as usize),
{
    let mut ix: Vec<usize> = Vec::new();
    let mut i: usize = 0;
    while i < models.len()
        invariant
            i <= models.len(),
            ix@ == visible_indices(models@, i as int),
            ix@.len() == 0 <==> (forall|k: int| 0 <= k < i ==> #[trigger] models@[k].hidden),
        decreases models.len() - i,
    {
        if !models[i].hidden {
            ix.push(i);
        }
        i = i + 1;
    }
    proof {
        lemma_visible_indices(models@, models.len() as int);
    }
    if ix.len() == 0 {
        None
    } else {
        Some(ix)
    }
}

/// The indices of the models among the first `n` that are not hidden, in
/// order.
pub open spec fn visible_indices<G>(models: Seq<Model<G>>, n: int) -> Seq<usize>
    decreases n,
{
    if n <= 0 {
        Seq::empty()
    } else if models[n - 1].hidden {
        visible_indices(models, n - 1)
    } else {
        visible_indices(models, n - 1).push((n - 1) as usize)
    }
}

/// The picked indices are exactly the visible models' indices below `n`,
/// each once and in increasing order.
pub proof fn lemma_visible_indices<G>(models: Seq<Model<G>>, n: int)
    requires
        0 <= n <= models.len() <= usize::MAX,
    ensures
        forall|k: int|
            0 <= k < visible_indices(models, n).len() ==> #[trigger] visible_indices(models, n)[k] < n
                && !models[visible_indices(models, n)[k] as int].hidden,
        forall|j: int, k: int|
            0 <= j < k < visible_indices(models, n).len() ==> #[trigger] visible_indices(models, n)[j]
                < #[trigger] visible_indices(models, n)[k],
        forall|i: int|
            0 <= i < n && !(#[trigger] models[i]).hidden ==> visible_indices(models, n).contains(i as usize),
    decreases n,
{
    if n > 0 {
        lemma_visible_indices(models, n - 1);
        let prev = visible_indices(models, n - 1);
        let cur = visible_indices(models, n);
        if !models[n - 1].hidden {
            assert(cur == prev.push((n - 1) as usize));
            assert forall|i: int| 0 <= i < n && !(#[trigger] models[i]).hidden implies cur.contains(i as usize) by {
                if i < n - 1 {
                    let k = choose|k: int| 0 <= k < prev.len() && prev[k] == i as usize;
                    assert(cur[k] == i as usize);
                } else {
                    assert(cur[prev.len() as int] == i as usize);
                }
            }
        }
    }
}

} // verus!
