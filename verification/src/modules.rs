use vstd::prelude::*;
use std::collections::HashMap;
use crate::id::Id;
use crate::plot::{Plot, only_simple_blocks, snapshot_of_blocks, snapshot_of_connections, state_pushed, state_popped, plot_run, applied_blocks, applied_connections};
use crate::decoration::Decoration;
use crate::connection::BlockID;
use crate::block::{Block, BlockView, block_shape_same};
use crate::state::{State, StateView};
use crate::project::{Project, names_of, find_index};
use crate::simulator::{SimResult, stack_has, stack_contains, recursion_message, recursion_error, is_recursion_error};
use crate::builtin::{builtin_kind, kind_of_name, gate_output, gate_instance};

verus! {

/// The number of bytes that encode `s` in UTF-8.
pub open spec fn utf8_len(s: Seq<char>) -> nat {
    vstd::utf8::encode_utf8(s).len()
}

/// Where a module is listed in the module panel.
#[derive(Default, Debug, Clone, Copy, PartialEq, Eq, Structural)]
pub enum Category {
    #[default]
    Basic,
    InputOutput,
    Gate,
    Combinational,
    Latch,
    FlipFlop,
    Hidden,
    Custom,
}

/// The inside of a user-made module: its plot and the identifiers of the
/// blocks that carry its inputs and outputs.
#[derive(Debug)]
pub struct Custom {
    plot: Plot,
    input_block: BlockID,
    output_block: BlockID,
    cache: HashMap<u128, u128>,
}

impl Custom {
    pub closed spec fn spec_plot(&self) -> Plot {
        self.plot
    }

    pub closed spec fn spec_input_block(&self) -> BlockID {
        self.input_block
    }

    pub closed spec fn spec_output_block(&self) -> BlockID {
        self.output_block
    }

    fn new(plot: Plot) -> (c: Self)
        ensures
            c.spec_plot() == plot,
            c.spec_input_block() == Id(0),
            c.spec_output_block() == Id(0),
    {
        Custom { plot, input_block: Id(0), output_block: Id(0), cache: HashMap::new() }
    }

    pub fn plot(&self) -> (p: &Plot)
        ensures
            *p == self.spec_plot(),
    {
        &self.plot
    }
}

/// A kind of block: a predefined gate or a custom circuit.
#[derive(Debug)]
pub struct Module {
    name: String,
    category: Category,
    builtin: bool,
    num_inputs: u8,
    num_outputs: u8,
    decoration: Decoration,
    custom_data: Option<Custom>,
}

impl Module {
    pub const MAX_MODULE_NAME_LEN: i32 = 25;

    pub closed spec fn spec_name(&self) -> Seq<char> {
        self.name@
    }

    /// The length of the name in bytes.
    pub open spec fn name_bytes(&self) -> usize {
        utf8_len(self.spec_name()) as usize
    }

    pub closed spec fn spec_category(&self) -> Category {
        self.category
    }

    pub closed spec fn spec_builtin(&self) -> bool {
        self.builtin
    }

    pub closed spec fn spec_num_inputs(&self) -> u8 {
        self.num_inputs
    }

    pub closed spec fn spec_num_outputs(&self) -> u8 {
        self.num_outputs
    }

    pub closed spec fn spec_decoration(&self) -> Decoration {
        self.decoration
    }

    pub closed spec fn spec_custom(&self) -> Option<Custom> {
        self.custom_data
    }

    /// The module can be simulated: it is a known predefined or has a plot,
    /// and its plot is well formed with pins that fit the simulator.
    pub open spec fn module_wf(&self) -> bool {
        &&& (self.spec_builtin() && crate::builtin::kind_of_name(self.spec_name()) is Some)
            || self.spec_custom() is Some
        &&& self.spec_custom() matches Some(c) ==> c.spec_plot().wf() && crate::plot::pins_bounded(
            c.spec_plot().blocks_view(),
        )
    }

    /// A new custom module with an empty plot.
    pub fn new(name: String, num_inputs: u8, num_outputs: u8) -> (m: Self)
        ensures
            m.spec_name() == name@,
            m.spec_category() == Category::Custom,
            !m.spec_builtin(),
            m.spec_num_inputs() == num_inputs,
            m.spec_num_outputs() == num_outputs,
            m.spec_decoration() == Decoration::Empty,
            m.spec_custom() is Some,
            m.spec_custom().unwrap().spec_plot().wf(),
            m.spec_custom().unwrap().spec_plot().blocks_view() == Map::<u64, crate::block::BlockView>::empty(),
    {
        let plot = Plot::new();
        Module {
            name,
            category: Category::Custom,
            builtin: false,
            custom_data: Some(Custom::new(plot)),
            num_inputs,
            num_outputs,
            decoration: Decoration::Empty,
        }
    }

    /// A predefined module, simulated by its gate function.
    pub fn new_builtin(
        name: &str,
        category: Category,
        num_inputs: u8,
        num_outputs: u8,
        decoration: Decoration,
    ) -> (m: Self)
        ensures
            m.spec_name() == name@,
            m.spec_category() == category,
            m.spec_builtin(),
            m.spec_num_inputs() == num_inputs,
            m.spec_num_outputs() == num_outputs,
            m.spec_decoration() == decoration,
            m.spec_custom() is None,
    {
        Module {
            name: name.to_owned(),
            category,
            builtin: true,
            custom_data: None,
            num_inputs,
            num_outputs,
            decoration,
        }
    }

    pub fn plot(&self) -> (p: Option<&Plot>)
        ensures
            p matches Some(pl) ==> self.spec_custom() is Some && *pl
                == self.spec_custom().unwrap().spec_plot(),
            p is None ==> self.spec_custom() is None,
    {
        match &self.custom_data {
            Some(data) => Some(data.plot()),
            None => None,
        }
    }

    pub fn builtin(&self) -> (b: bool)
        ensures
            b == self.spec_builtin(),
    {
        self.builtin
    }

    pub fn hidden(&self) -> (h: bool)
        ensures
            h == (self.spec_category() == Category::Hidden),
    {
        matches!(self.category, Category::Hidden)
    }

    pub fn category(&self) -> (c: Category)
        ensures
            c == self.spec_category(),
    {
        self.category
    }

    pub fn name(&self) -> (n: &String)
        ensures
            n@ == self.spec_name(),
    {
        &self.name
    }

    pub fn get_num_inputs(&self) -> (n: u8)
        ensures
            n == self.spec_num_inputs(),
    {
        self.num_inputs
    }

    pub fn get_num_outputs(&self) -> (n: u8)
        ensures
            n == self.spec_num_outputs(),
    {
        self.num_outputs
    }

    pub fn decoration(&self) -> (d: &Decoration)
        ensures
            *d == self.spec_decoration(),
    {
        &self.decoration
    }
}

/// The same module up to the dynamic state of its plot.
pub open spec fn module_shape_same(a: Module, b: Module) -> bool {
    &&& a.spec_name() == b.spec_name()
    &&& a.spec_category() == b.spec_category()
    &&& a.spec_builtin() == b.spec_builtin()
    &&& a.spec_num_inputs() == b.spec_num_inputs()
    &&& a.spec_num_outputs() == b.spec_num_outputs()
    &&& a.spec_decoration() == b.spec_decoration()
    &&& a.spec_custom() is Some == b.spec_custom() is Some
    &&& a.spec_custom() matches Some(ca) ==> {
        let cb = b.spec_custom().unwrap();
        &&& ca.spec_input_block() == cb.spec_input_block()
        &&& ca.spec_output_block() == cb.spec_output_block()
        &&& crate::plot::same_shape(ca.spec_plot().blocks_view(), cb.spec_plot().blocks_view())
    }
}

/// Two lists of the same modules, in the same order, up to the dynamic
/// state of their plots.
pub open spec fn modules_shape_same(a: Seq<Module>, b: Seq<Module>) -> bool {
    &&& a.len() == b.len()
    &&& forall|i: int| 0 <= i < a.len() ==> module_shape_same(#[trigger] a[i], b[i]) && stack_len(a[i]) == stack_len(b[i])
}

/// How many snapshots the plot of module `m` holds (none without a plot).
pub open spec fn stack_len(m: Module) -> nat {
    match m.spec_custom() {
        Some(c) => c.spec_plot().spec_states().len(),
        None => 0,
    }
}

pub proof fn lemma_module_shape_trans(a: Module, b: Module, c: Module)
    requires
        module_shape_same(a, b),
        module_shape_same(b, c),
    ensures
        module_shape_same(a, c),
{
    if a.spec_custom() is Some {
        crate::plot::lemma_same_shape_trans(
            a.spec_custom().unwrap().spec_plot().blocks_view(),
            b.spec_custom().unwrap().spec_plot().blocks_view(),
            c.spec_custom().unwrap().spec_plot().blocks_view(),
        );
    }
}

pub proof fn lemma_modules_shape_trans(a: Seq<Module>, b: Seq<Module>, c: Seq<Module>)
    requires
        modules_shape_same(a, b),
        modules_shape_same(b, c),
    ensures
        modules_shape_same(a, c),
{
    assert forall|i: int| 0 <= i < a.len() implies module_shape_same(#[trigger] a[i], c[i]) && stack_len(a[i])
        == stack_len(c[i]) by {
        assert(module_shape_same(a[i], b[i]));
        assert(module_shape_same(b[i], c[i]));
        let x = a[i];
        let y = b[i];
        let z = c[i];
        if x.spec_custom() is Some {
            crate::plot::lemma_same_shape_trans(
                x.spec_custom().unwrap().spec_plot().blocks_view(),
                y.spec_custom().unwrap().spec_plot().blocks_view(),
                z.spec_custom().unwrap().spec_plot().blocks_view(),
            );
        }
    }
}

/// Module lists of the same shape find a name at the same position.
pub proof fn lemma_modules_shape_find(a: Seq<Module>, b: Seq<Module>, n: Seq<char>)
    requires
        modules_shape_same(a, b),
        crate::project::names_unique(a),
    ensures
        find_index(a, n) == find_index(b, n),
        crate::project::names_unique(b),
{
    assert forall|i: int, j: int| 0 <= i < j < b.len() implies (#[trigger] b[i]).spec_name() != (
    #[trigger] b[j]).spec_name() by {
        assert(module_shape_same(a[i], b[i]));
        assert(module_shape_same(a[j], b[j]));
    }
    if exists|i: int| 0 <= i < a.len() && (#[trigger] a[i]).spec_name() == n {
        let i = choose|i: int| 0 <= i < a.len() && (#[trigger] a[i]).spec_name() == n;
        assert(module_shape_same(a[i], b[i]));
        crate::project::lemma_find_index_unique(a, n, i);
        crate::project::lemma_find_index_unique(b, n, i);
    } else {
        assert forall|i: int| 0 <= i < b.len() implies (#[trigger] b[i]).spec_name() != n by {
            assert(module_shape_same(a[i], b[i]));
        }
    }
}

/// Taking module `i` out, changing it and the rest in shape only, and
/// putting it back leaves a list of the same shape.
pub proof fn lemma_modules_shape_reinsert(o: Seq<Module>, i: int, r: Seq<Module>, m: Module)
    requires
        0 <= i < o.len(),
        modules_shape_same(o.remove(i), r),
        module_shape_same(o[i], m),
        stack_len(o[i]) == stack_len(m),
    ensures
        modules_shape_same(o, r.insert(i, m)),
{
    let n = r.insert(i, m);
    assert forall|a: int| 0 <= a < o.len() implies module_shape_same(#[trigger] o[a], n[a]) && stack_len(o[a])
        == stack_len(n[a]) by {
        if a < i {
            assert(o.remove(i)[a] == o[a]);
            assert(module_shape_same(o.remove(i)[a], r[a]));
        } else if a > i {
            assert(o.remove(i)[a - 1] == o[a]);
            assert(module_shape_same(o.remove(i)[a - 1], r[a - 1]));
        }
    }
}

/// Simulating the plot of custom module `m` cannot fail: every block of
/// it is an instance of a predefined module of `ms`, or names no module of
/// `ms` while neither on `stack` nor named like `m`.
pub open spec fn simple_module_plot(m: Module, ms: Seq<Module>, stack: Seq<String>) -> bool {
    &&& m.spec_custom() is Some
    &&& only_simple_blocks(m.spec_custom().unwrap().spec_plot().blocks_view(), ms, stack)
    &&& forall|k: u64| #[trigger]
        m.spec_custom().unwrap().spec_plot().blocks_view().contains_key(k) && find_index(
            ms,
            m.spec_custom().unwrap().spec_plot().blocks_view()[k].name,
        ) is None ==> m.spec_custom().unwrap().spec_plot().blocks_view()[k].name != m.spec_name()
}

/// Plot `q` is the plot `p` of a custom module made ready to simulate one
/// block: the block's saved states (`saved`) are put back, the input block
/// holds `inputs` without passing its pins through, and it is queued.
pub open spec fn module_plot_fed(p: Plot, saved: StateView, input_block: BlockID, inputs: u128, q: Plot) -> bool {
    let bs = match saved {
        StateView::Inherit(sb, _) => applied_blocks(p.blocks_view(), sb),
        _ => p.blocks_view(),
    };
    let cs = match saved {
        StateView::Inherit(_, sc) => applied_connections(p.connections_view(), sc),
        _ => p.connections_view(),
    };
    &&& q.blocks_view() == if bs.contains_key(input_block.0) {
        bs.insert(input_block.0, BlockView { bytes: inputs, passthrough: false, ..bs[input_block.0] })
    } else {
        bs
    }
    &&& q.connections_view() == cs
    &&& q.spec_to_update() == p.spec_to_update().insert(input_block.0)
}

/// Plot `q` is plot `p` after its input block is reset: it holds nothing and
/// passes its pins through again.
pub open spec fn input_reset(p: Plot, input_block: BlockID, q: Plot) -> bool {
    &&& q.blocks_view() == if p.blocks_view().contains_key(input_block.0) {
        p.blocks_view().insert(
            input_block.0,
            BlockView { bytes: 0, passthrough: true, ..p.blocks_view()[input_block.0] },
        )
    } else {
        p.blocks_view()
    }
    &&& q.connections_view() == p.connections_view()
}

impl Module {
    /// Simulates one block of this module whose input pins carry
    /// `inputs`; returns its output bits.
    ///
    /// A predefined runs its gate. A custom module puts the block's saved
    /// state into its plot, feeds `inputs` to its input block, simulates
    /// the plot, reads its output block and saves the plot's state in the
    /// block. A module that is already on the call stack is an error.
    pub fn simulate(
        &mut self,
        inputs: u128,
        instance: &mut Block,
        project: &mut Project,
        call_stack: &mut Vec<String>,
    ) -> (r: SimResult<u128>)
        requires
            old(self).module_wf(),
            old(project).wf(),
        ensures
            final(self).module_wf(),
            final(project).wf(),
            module_shape_same(*old(self), *final(self)),
            names_of(final(project).spec_modules()) == names_of(old(project).spec_modules()),
            modules_shape_same(old(project).spec_modules(), final(project).spec_modules()),
            final(project).spec_main_plot() == old(project).spec_main_plot(),
            stack_len(*final(self)) == stack_len(*old(self)),
            final(call_stack)@ == old(call_stack)@,
            block_shape_same(old(instance)@, final(instance)@),
            r matches Err(e) ==> is_recursion_error(e@),
            old(self).spec_builtin() && kind_of_name(old(self).spec_name()) is Some ==> {
                let k = kind_of_name(old(self).spec_name()).unwrap();
                &&& r == Ok::<u128, String>(gate_output(k, inputs, old(instance)@))
                &&& final(instance)@ == gate_instance(k, inputs, old(instance)@)
                &&& *final(self) == *old(self)
                &&& *final(project) == *old(project)
            },
            !(old(self).spec_builtin() && kind_of_name(old(self).spec_name()) is Some) && stack_has(
                old(call_stack)@,
                old(self).spec_name(),
            ) ==> {
                &&& r matches Err(e) && e@ == recursion_error(old(self).spec_name())
                &&& final(instance)@ == old(instance)@
                &&& *final(self) == *old(self)
                &&& *final(project) == *old(project)
            },
            !(old(self).spec_builtin() && kind_of_name(old(self).spec_name()) is Some) && !stack_has(
                old(call_stack)@,
                old(self).spec_name(),
            ) ==> {
                let data = final(self).spec_custom().unwrap();
                let np = data.spec_plot();
                let out_id = data.spec_output_block().0;
                let in_id = data.spec_input_block().0;
                &&& r matches Ok(out) ==> out == if np.blocks_view().contains_key(out_id) {
                    np.blocks_view()[out_id].bytes
                } else {
                    0
                }
                &&& np.blocks_view().contains_key(in_id) ==> np.blocks_view()[in_id].bytes == 0
                    && np.blocks_view()[in_id].passthrough
                &&& final(instance)@.state matches StateView::Inherit(bs, cs) && snapshot_of_blocks(
                    bs,
                    np.blocks_view(),
                ) && snapshot_of_connections(cs, np.connections_view())
                &&& final(instance)@ == (BlockView { state: final(instance)@.state, ..old(instance)@ })
                &&& simple_module_plot(*old(self), old(project).spec_modules(), old(call_stack)@) ==> r is Ok
                &&& exists|fed: Plot, run: SimResult<bool>, ran: Plot|
                    #![trigger module_plot_fed(old(self).spec_custom().unwrap().spec_plot(), old(instance)@.state, data.spec_input_block(), inputs, fed), plot_run(fed, old(project).spec_modules(), run, ran)]
                    {
                        &&& module_plot_fed(
                            old(self).spec_custom().unwrap().spec_plot(),
                            old(instance)@.state,
                            data.spec_input_block(),
                            inputs,
                            fed,
                        )
                        &&& plot_run(fed, old(project).spec_modules(), run, ran)
                        &&& input_reset(ran, data.spec_input_block(), np)
                        &&& r == match run {
                            Ok(_) => Ok::<u128, String>(if np.blocks_view().contains_key(out_id) {
                                np.blocks_view()[out_id].bytes
                            } else {
                                0
                            }),
                            Err(e) => Err::<u128, String>(e),
                        }
                    }
            },
        decreases old(project).spec_modules().len(), 3int,
    {
        if self.builtin {
            match builtin_kind(&self.name) {
                Some(kind) => {
                    return Ok(kind.simulate(inputs, instance));
                },
                None => {},
            }
        }
        if stack_contains(call_stack, &self.name) {
            return Err(recursion_message(&self.name));
        }
        call_stack.push(self.name.clone());
        let ghost pushed = call_stack@;
        let mut data = self.custom_data.take().unwrap();
        let ghost p0 = data.plot;
        let ghost ob = data.plot.blocks_view();
        let st = instance.state();
        proof {
            crate::state::lemma_state_view_kind(*st);
        }
        match st {
            State::Inherit(saved) => {
                proof {
                    crate::state::lemma_inherit_view(*saved);
                }
                data.plot.apply_state(saved);
                proof {
                    crate::plot::lemma_applied_same_shape(ob, saved.spec_blocks());
                }
            },
            _ => {},
        }
        let ghost b1 = data.plot.blocks_view();
        proof {
            crate::plot::lemma_pins_bounded_same_shape(ob, b1);
        }
        data.plot.set_block_io(data.input_block, inputs, false);
        data.plot.add_block_to_update(data.input_block);
        let ghost b2 = data.plot.blocks_view();
        proof {
            crate::plot::lemma_same_shape_trans(ob, b1, b2);
            crate::plot::lemma_pins_bounded_same_shape(ob, b2);
        }
        let ghost fed = data.plot;
        proof {
            if simple_module_plot(*old(self), old(project).spec_modules(), old(call_stack)@) {
                let ms = old(project).spec_modules();
                assert forall|k: u64| #[trigger] ob.contains_key(k) implies match find_index(ms, ob[k].name) {
                    Some(i) => ms[i].spec_builtin() && kind_of_name(ms[i].spec_name()) is Some,
                    None => !stack_has(call_stack@, ob[k].name),
                } by {
                    if find_index(ms, ob[k].name) is None {
                        assert(!stack_has(old(call_stack)@, ob[k].name));
                        assert(ob[k].name != self.spec_name());
                        if stack_has(call_stack@, ob[k].name) {
                            let j = choose|j: int| 0 <= j < call_stack@.len() && (#[trigger] call_stack@[j])@ == ob[k].name;
                            if j < old(call_stack)@.len() {
                                assert(call_stack@[j] == old(call_stack)@[j]);
                            }
                        }
                    }
                }
                crate::plot::lemma_only_simple_same_shape(ob, fed.blocks_view(), ms, call_stack@);
            }
        }
        let result = data.plot.simulate(project, call_stack);
        let ghost b3 = data.plot.blocks_view();
        let ghost ran = data.plot;
        data.plot.set_block_io(data.input_block, 0, true);
        proof {
            crate::plot::lemma_same_shape_trans(ob, b2, b3);
            crate::plot::lemma_same_shape_trans(ob, b3, data.plot.blocks_view());
            crate::plot::lemma_pins_bounded_same_shape(ob, data.plot.blocks_view());
        }
        let outputs = match data.plot.get_block(data.output_block) {
            Some(b) => b.bytes(),
            None => 0,
        };
        proof {
            let bv = data.plot.blocks_view();
            let k = data.spec_output_block().0;
            assert(bv.contains_key(k) ==> outputs == bv[k].bytes);
            assert(!bv.contains_key(k) ==> outputs == 0);
        }
        let saved = data.plot.snapshot();
        instance.set_state(State::Inherit(saved));
        proof {
            crate::state::lemma_inherit_view(saved);
        }
        self.custom_data = Some(data);
        call_stack.pop();
        proof {
            assert(call_stack@ =~= old(call_stack)@);
        }
        proof {
            assert(module_plot_fed(p0, old(instance)@.state, data.spec_input_block(), inputs, fed));
            assert(plot_run(fed, old(project).spec_modules(), result, ran));
            assert(input_reset(ran, data.spec_input_block(), data.plot));
        }
        match result {
            Ok(_) => Ok(outputs),
            Err(e) => Err(e),
        }
    }
}

impl Module {
    /// Saves a snapshot of the states of the module's plot, if it has one.
    pub fn push_plot_state(&mut self)
        requires
            old(self).module_wf(),
        ensures
            final(self).module_wf(),
            module_shape_same(*old(self), *final(self)),
            old(self).spec_custom() is None ==> *final(self) == *old(self),
            old(self).spec_custom() matches Some(c) ==> state_pushed(
                c.spec_plot(),
                final(self).spec_custom().unwrap().spec_plot(),
            ),
    {
        match self.custom_data.take() {
            Some(mut data) => {
                data.plot.push_state();
                self.custom_data = Some(data);
            },
            None => {},
        }
    }

    /// Puts back the latest snapshot of the module's plot, if it has one.
    pub fn pop_plot_state(&mut self)
        requires
            old(self).module_wf(),
        ensures
            final(self).module_wf(),
            module_shape_same(*old(self), *final(self)),
            old(self).spec_custom() is None ==> *final(self) == *old(self),
            old(self).spec_custom() matches Some(c) ==> state_popped(
                c.spec_plot(),
                final(self).spec_custom().unwrap().spec_plot(),
            ),
    {
        match self.custom_data.take() {
            Some(mut data) => {
                let ghost ob = data.plot.blocks_view();
                data.plot.pop_state();
                proof {
                    if data.plot.spec_states().len() + 1 == old(self).spec_custom().unwrap().spec_plot().spec_states().len() {
                        crate::plot::lemma_applied_same_shape(ob, old(self).spec_custom().unwrap().spec_plot().spec_states().last().spec_blocks());
                    }
                    crate::plot::lemma_pins_bounded_same_shape(ob, data.plot.blocks_view());
                }
                self.custom_data = Some(data);
            },
            None => {},
        }
    }

    /// Simulates the module's own plot between restoring and saving its
    /// snapshot, with the module on the call stack; `None` for a module
    /// without a plot.
    pub fn simulate_plot(&mut self, project: &mut Project, call_stack: &mut Vec<String>) -> (r: Option<
        SimResult<bool>,
    >)
        requires
            old(self).module_wf(),
            old(project).wf(),
        ensures
            final(self).module_wf(),
            module_shape_same(*old(self), *final(self)),
            final(project).wf(),
            names_of(final(project).spec_modules()) == names_of(old(project).spec_modules()),
            modules_shape_same(old(project).spec_modules(), final(project).spec_modules()),
            final(project).spec_main_plot() == old(project).spec_main_plot(),
            stack_len(*old(self)) > 0 ==> stack_len(*final(self)) == stack_len(*old(self)),
            final(call_stack)@ == old(call_stack)@,
            r is None == old(self).spec_custom() is None,
            r matches Some(Err(e)) ==> is_recursion_error(e@),
            old(self).spec_custom() is None ==> *final(self) == *old(self) && *final(project) == *old(project),
            old(self).spec_custom() matches Some(c) ==> {
                let pending = c.spec_plot().spec_to_update().len() > 0;
                let np = final(self).spec_custom().unwrap().spec_plot();
                &&& r matches Some(res) && (res matches Ok(changed) ==> changed == pending)
                &&& exists|start: Plot, ran: Plot|
                    #![trigger state_popped(c.spec_plot(), start), plot_run(start, old(project).spec_modules(), r.unwrap(), ran)]
                    {
                        &&& state_popped(c.spec_plot(), start)
                        &&& plot_run(start, old(project).spec_modules(), r.unwrap(), ran)
                        &&& state_pushed(ran, np)
                    }
                &&& !pending ==> {
                    &&& r == Some(SimResult::<bool>::Ok(false))
                    &&& *final(project) == *old(project)
                    &&& np.spec_to_update().len() == 0
                }
            },
    {
        match self.custom_data.take() {
            Some(mut data) => {
                let ghost ob = data.plot.blocks_view();
                data.plot.pop_state();
                let ghost b1 = data.plot.blocks_view();
                proof {
                    if data.plot.spec_states().len() + 1 == old(self).spec_custom().unwrap().spec_plot().spec_states().len() {
                        crate::plot::lemma_applied_same_shape(ob, old(self).spec_custom().unwrap().spec_plot().spec_states().last().spec_blocks());
                    }
                    crate::plot::lemma_pins_bounded_same_shape(ob, b1);
                }
                let ghost start = data.plot;
                call_stack.push(self.name.clone());
                let r = data.plot.simulate(project, call_stack);
                let ghost ran = data.plot;
                call_stack.pop();
                proof {
                    assert(call_stack@ =~= old(call_stack)@);
                }
                data.plot.push_state();
                proof {
                    crate::plot::lemma_same_shape_trans(ob, b1, data.plot.blocks_view());
                    assert(state_popped(old(self).spec_custom().unwrap().spec_plot(), start));
                    assert(plot_run(start, old(project).spec_modules(), r, ran));
                    assert(state_pushed(ran, data.plot));
                }
                self.custom_data = Some(data);
                Some(r)
            },
            None => None,
        }
    }

    /// Places a block on the module's plot, when the module has a plot and
    /// no wire there names the block's identifier with pins it lacks;
    /// returns whether it was placed.
    pub fn add_block_to_plot(&mut self, block: Block) -> (added: bool)
        requires
            old(self).module_wf(),
            block@.inputs.len() <= crate::collect::MAX_PINS,
            block@.outputs.len() <= crate::collect::MAX_PINS,
        ensures
            final(self).module_wf(),
            final(self).spec_name() == old(self).spec_name(),
            final(self).spec_category() == old(self).spec_category(),
            final(self).spec_builtin() == old(self).spec_builtin(),
            final(self).spec_num_inputs() == old(self).spec_num_inputs(),
            final(self).spec_num_outputs() == old(self).spec_num_outputs(),
            final(self).spec_decoration() == old(self).spec_decoration(),
            final(self).spec_custom() is Some == old(self).spec_custom() is Some,
            added == (old(self).spec_custom() matches Some(c) && crate::plot::wires_fit(
                c.spec_plot().connections_view(),
                block@.id.0,
                block@,
            )),
            old(self).spec_custom() matches Some(c) ==> {
                let nc = final(self).spec_custom().unwrap();
                &&& nc.spec_input_block() == c.spec_input_block()
                &&& nc.spec_output_block() == c.spec_output_block()
                &&& nc.spec_plot().connections_view() == c.spec_plot().connections_view()
                &&& nc.spec_plot().blocks_view() == if added {
                    c.spec_plot().blocks_view().insert(block@.id.0, block@)
                } else {
                    c.spec_plot().blocks_view()
                }
            },
    {
        match self.custom_data.take() {
            Some(mut data) => {
                let fits = data.plot.block_fits(&block);
                if fits {
                    proof {
                        crate::plot::lemma_wires_fit_links_fit(
                            data.plot.blocks_view(),
                            data.plot.connections_view(),
                            block@.id.0,
                            block@,
                        );
                    }
                    data.plot.add_block(block);
                    proof {
                        let nb = data.plot.blocks_view();
                        assert forall|k: u64| #[trigger] nb.contains_key(k) implies nb[k].inputs.len()
                            <= crate::collect::MAX_PINS && nb[k].outputs.len() <= crate::collect::MAX_PINS by {
                            if k != block@.id.0 {
                                assert(old(self).spec_custom().unwrap().spec_plot().blocks_view().contains_key(k));
                            }
                        }
                    }
                }
                self.custom_data = Some(data);
                fits
            },
            None => false,
        }
    }

    /// Sets the blocks that carry the inputs and outputs of a custom
    /// module.
    pub fn set_io_blocks(&mut self, input_block: BlockID, output_block: BlockID)
        ensures
            final(self).spec_name() == old(self).spec_name(),
            final(self).spec_builtin() == old(self).spec_builtin(),
            final(self).spec_custom() is Some == old(self).spec_custom() is Some,
            old(self).spec_custom() matches Some(c) ==> {
                let nc = final(self).spec_custom().unwrap();
                &&& nc.spec_plot() == c.spec_plot()
                &&& nc.spec_input_block() == input_block
                &&& nc.spec_output_block() == output_block
            },
            old(self).module_wf() ==> final(self).module_wf(),
            module_shape_same(*old(self), *final(self)) <== old(self).spec_custom() is None,
    {
        match self.custom_data.take() {
            Some(mut data) => {
                data.input_block = input_block;
                data.output_block = output_block;
                self.custom_data = Some(data);
            },
            None => {},
        }
    }

    /// Whether a custom module knows the blocks that carry its inputs and
    /// outputs.
    pub fn has_io_blocks(&self) -> (b: bool)
        ensures
            b == (self.spec_custom() matches Some(c) && c.spec_input_block() != Id(0)
                && c.spec_output_block() != Id(0)),
    {
        match &self.custom_data {
            Some(data) => data.input_block.0 != 0 && data.output_block.0 != 0,
            None => false,
        }
    }
}

impl Module {
    /// Exchanges the module's plot with `plot`; returns whether the module
    /// has a plot (a predefined has none and is left as it is).
    pub fn swap_plot(&mut self, plot: &mut Plot) -> (swapped: bool)
        requires
            old(self).module_wf(),
            old(plot).wf(),
            crate::plot::pins_bounded(old(plot).blocks_view()),
        ensures
            final(self).module_wf(),
            final(plot).wf(),
            crate::plot::pins_bounded(final(plot).blocks_view()),
            swapped == old(self).spec_custom() is Some,
            final(self).spec_name() == old(self).spec_name(),
            final(self).spec_category() == old(self).spec_category(),
            final(self).spec_builtin() == old(self).spec_builtin(),
            final(self).spec_num_inputs() == old(self).spec_num_inputs(),
            final(self).spec_num_outputs() == old(self).spec_num_outputs(),
            final(self).spec_decoration() == old(self).spec_decoration(),
            final(self).spec_custom() is Some == old(self).spec_custom() is Some,
            swapped ==> {
                let c = old(self).spec_custom().unwrap();
                let nc = final(self).spec_custom().unwrap();
                &&& nc.spec_plot() == *old(plot)
                &&& *final(plot) == c.spec_plot()
                &&& nc.spec_input_block() == c.spec_input_block()
                &&& nc.spec_output_block() == c.spec_output_block()
            },
            !swapped ==> *final(self) == *old(self) && *final(plot) == *old(plot),
    {
        match self.custom_data.take() {
            Some(mut data) => {
                core::mem::swap(&mut data.plot, plot);
                self.custom_data = Some(data);
                true
            },
            None => false,
        }
    }
}

impl Clone for Module {
    /// A copy of the module with a copy of its plot.
    fn clone(&self) -> (m: Self)
        ensures
            m.spec_name() == self.spec_name(),
            m.spec_category() == self.spec_category(),
            m.spec_builtin() == self.spec_builtin(),
            m.spec_num_inputs() == self.spec_num_inputs(),
            m.spec_num_outputs() == self.spec_num_outputs(),
            m.spec_decoration() == self.spec_decoration(),
            m.spec_custom() is Some == self.spec_custom() is Some,
            self.spec_custom() matches Some(c) ==> {
                let mc = m.spec_custom().unwrap();
                &&& mc.spec_input_block() == c.spec_input_block()
                &&& mc.spec_output_block() == c.spec_output_block()
                &&& mc.spec_plot().blocks_view() == c.spec_plot().blocks_view()
                &&& mc.spec_plot().connections_view() == c.spec_plot().connections_view()
            },
            self.module_wf() ==> m.module_wf(),
    {
        let custom_data = match &self.custom_data {
            Some(data) => Some(
                Custom {
                    plot: data.plot.clone(),
                    input_block: data.input_block,
                    output_block: data.output_block,
                    cache: HashMap::new(),
                },
            ),
            None => None,
        };
        Module {
            name: self.name.clone(),
            category: self.category,
            builtin: self.builtin,
            num_inputs: self.num_inputs,
            num_outputs: self.num_outputs,
            decoration: self.decoration.clone(),
            custom_data,
        }
    }
}

impl Module {
    /// A module with every field given, as stored in a project file; a
    /// custom module comes with its plot and its input and output blocks.
    pub fn from_parts(
        name: String,
        category: Category,
        builtin: bool,
        num_inputs: u8,
        num_outputs: u8,
        decoration: Decoration,
        custom: Option<(Plot, BlockID, BlockID)>,
    ) -> (m: Self)
        ensures
            m.spec_name() == name@,
            m.spec_category() == category,
            m.spec_builtin() == builtin,
            m.spec_num_inputs() == num_inputs,
            m.spec_num_outputs() == num_outputs,
            m.spec_decoration() == decoration,
            m.spec_custom() is Some == custom is Some,
            custom matches Some((p, i, o)) ==> {
                let c = m.spec_custom().unwrap();
                &&& c.spec_plot() == p
                &&& c.spec_input_block() == i
                &&& c.spec_output_block() == o
            },
    {
        let custom_data = match custom {
            Some((plot, input_block, output_block)) => Some(
                Custom { plot, input_block, output_block, cache: HashMap::new() },
            ),
            None => None,
        };
        Module { name, category, builtin, num_inputs, num_outputs, decoration, custom_data }
    }

    /// The blocks that carry the inputs and outputs of a custom module.
    pub fn io_blocks(&self) -> (ids: Option<(BlockID, BlockID)>)
        ensures
            match self.spec_custom() {
                Some(c) => ids == Some((c.spec_input_block(), c.spec_output_block())),
                None => ids is None,
            },
    {
        match &self.custom_data {
            Some(data) => Some((data.input_block, data.output_block)),
            None => None,
        }
    }

    /// Whether the module can be simulated (see `module_wf`).
    pub fn is_sound(&self) -> (b: bool)
        ensures
            b == self.module_wf(),
    {
        let known = self.builtin && builtin_kind(&self.name).is_some();
        match &self.custom_data {
            Some(data) => data.plot.is_sound(),
            None => known,
        }
    }
}

} // verus!
