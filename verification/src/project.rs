use vstd::prelude::*;
use crate::modules::{Module, module_shape_same, modules_shape_same, stack_len, lemma_modules_shape_trans, lemma_module_shape_trans, lemma_modules_shape_reinsert};
use crate::plot::{Plot, PlotDescriptor, pins_bounded, same_shape, plot_run};
use crate::builtin::{builtin_modules, builtin_name, all_kinds, kind_of_name, BuiltinKind, input_module_name, output_module_name, builtin_inputs, builtin_outputs};
use crate::block::{Block, BlockView, is_new_sized};
use crate::action::blocks_placed;
use crate::vector::Vector2;
use crate::simulator::{UICallback, SimResult, is_recursion_error};

verus! {

/// The names of a list of modules, in order.
pub open spec fn names_of(ms: Seq<Module>) -> Seq<Seq<char>> {
    ms.map_values(|m: Module| m.spec_name())
}

/// No two modules share a name.
pub open spec fn names_unique(ms: Seq<Module>) -> bool {
    forall|i: int, j: int|
        0 <= i < j < ms.len() ==> (#[trigger] ms[i]).spec_name() != (#[trigger] ms[j]).spec_name()
}

/// The position of the module named `name`, if any.
pub open spec fn find_index(ms: Seq<Module>, name: Seq<char>) -> Option<int> {
    if exists|i: int| 0 <= i < ms.len() && (#[trigger] ms[i]).spec_name() == name {
        Some(choose|i: int| 0 <= i < ms.len() && (#[trigger] ms[i]).spec_name() == name)
    } else {
        None
    }
}

pub proof fn lemma_find_index_unique(ms: Seq<Module>, name: Seq<char>, i: int)
    requires
        names_unique(ms),
        0 <= i < ms.len(),
        ms[i].spec_name() == name,
    ensures
        find_index(ms, name) == Some(i),
{
    let j = choose|j: int| 0 <= j < ms.len() && (#[trigger] ms[j]).spec_name() == name;
    if j < i {
        assert(ms[j].spec_name() != ms[i].spec_name());
    } else if j > i {
        assert(ms[i].spec_name() != ms[j].spec_name());
    }
}

/// The modules after `m` is added by name: it replaces the module of the
/// same name, or comes last.
pub open spec fn with_module(ms: Seq<Module>, m: Module) -> Seq<Module> {
    match find_index(ms, m.spec_name()) {
        Some(i) => ms.update(i, m),
        None => ms.push(m),
    }
}

/// The modules after each of `added` is added by name, in order.
pub open spec fn with_modules(ms: Seq<Module>, added: Seq<Module>) -> Seq<Module>
    decreases added.len(),
{
    if added.len() == 0 {
        ms
    } else {
        with_module(with_modules(ms, added.drop_last()), added.last())
    }
}

/// The modules without the one named `name`.
pub open spec fn without_module(ms: Seq<Module>, name: Seq<char>) -> Seq<Module> {
    match find_index(ms, name) {
        Some(i) => ms.remove(i),
        None => ms,
    }
}

pub proof fn lemma_with_module_unique(ms: Seq<Module>, m: Module)
    requires
        names_unique(ms),
    ensures
        names_unique(with_module(ms, m)),
        forall|i: int| 0 <= i < with_module(ms, m).len() ==> #[trigger] with_module(ms, m)[i] == m
            || ms.contains(with_module(ms, m)[i]),
{
    let r = with_module(ms, m);
    match find_index(ms, m.spec_name()) {
        Some(k) => {
            assert forall|i: int, j: int| 0 <= i < j < r.len() implies (#[trigger] r[i]).spec_name()
                != (#[trigger] r[j]).spec_name() by {
                if i != k && j != k {
                    assert(r[i] == ms[i] && r[j] == ms[j]);
                } else if i == k {
                    assert(r[j] == ms[j]);
                    assert(ms[k].spec_name() != ms[j].spec_name());
                } else {
                    assert(r[i] == ms[i]);
                    assert(ms[i].spec_name() != ms[k].spec_name());
                }
            }
            assert forall|i: int| 0 <= i < r.len() implies #[trigger] r[i] == m || ms.contains(r[i]) by {
                if i != k {
                    assert(r[i] == ms[i]);
                }
            }
        },
        None => {
            assert forall|i: int, j: int| 0 <= i < j < r.len() implies (#[trigger] r[i]).spec_name()
                != (#[trigger] r[j]).spec_name() by {
                if j == ms.len() {
                    assert(r[i] == ms[i]);
                } else {
                    assert(r[i] == ms[i] && r[j] == ms[j]);
                }
            }
            assert forall|i: int| 0 <= i < r.len() implies #[trigger] r[i] == m || ms.contains(r[i]) by {
                if i < ms.len() {
                    assert(r[i] == ms[i]);
                }
            }
        },
    }
}


/// Which plot a descriptor names: `None` for the main plot, else the name
/// of the module.
pub open spec fn which_plot(d: PlotDescriptor) -> Option<Seq<char>> {
    match d {
        PlotDescriptor::Main() => None,
        PlotDescriptor::Module(name) => Some(name@),
    }
}

/// The plot that `which` names in the project, if it exists.
pub open spec fn plot_at(p: Project, which: Option<Seq<char>>) -> Option<Plot> {
    match which {
        None => Some(p.spec_main_plot()),
        Some(n) => match find_index(p.spec_modules(), n) {
            Some(i) => match p.spec_modules()[i].spec_custom() {
                Some(c) => Some(c.spec_plot()),
                None => None,
            },
            None => None,
        },
    }
}

/// A whole circuit project: the main plot and the modules that its blocks
/// are instances of.
#[derive(Debug)]
pub struct Project {
    modules: Vec<Module>,
    main_plot: Plot,
}

impl Project {
    pub closed spec fn spec_modules(&self) -> Seq<Module> {
        self.modules@
    }

    pub closed spec fn spec_main_plot(&self) -> Plot {
        self.main_plot
    }

    /// Module names are unique, every module can be simulated, and every
    /// plot is well formed with pins that fit the simulator.
    pub open spec fn wf(&self) -> bool {
        &&& names_unique(self.spec_modules())
        &&& forall|i: int| 0 <= i < self.spec_modules().len() ==> (#[trigger] self.spec_modules()[i]).module_wf()
        &&& self.spec_main_plot().wf()
        &&& pins_bounded(self.spec_main_plot().blocks_view())
    }

    /// A project with the given modules (a later module replaces an
    /// earlier one of the same name) and an empty main plot.
    pub fn new(modules: Vec<Module>) -> (p: Self)
        requires
            forall|i: int| 0 <= i < modules@.len() ==> (#[trigger] modules@[i]).module_wf(),
        ensures
            p.wf(),
            p.spec_modules() == with_modules(Seq::<Module>::empty(), modules@),
            p.spec_main_plot().blocks_view().len() == 0,
            p.spec_main_plot().connections_view().len() == 0,
    {
        let mut ms: Vec<Module> = Vec::new();
        let mut rest = modules;
        let ghost all = rest@;
        assert(all.len() <= usize::MAX) by {
            assert(rest@.len() == rest.len());
        }
        let mut taken: Vec<Module> = Vec::new();
        while rest.len() > 0
            invariant
                rest@.len() <= all.len(),
                rest@ == all.subrange(0, rest@.len() as int),
                taken@ == all.subrange(rest@.len() as int, all.len() as int).reverse(),
            decreases rest@.len(),
        {
            let m = rest.pop().unwrap();
            taken.push(m);
            proof {
                assert(taken@ =~= all.subrange(rest@.len() as int, all.len() as int).reverse());
                assert(rest@ =~= all.subrange(0, rest@.len() as int));
            }
        }
        let mut i: usize = 0;
        while taken.len() > 0
            invariant
                i + taken@.len() == all.len(),
                all.len() <= usize::MAX,
                taken@ == all.subrange(i as int, all.len() as int).reverse(),
                names_unique(ms@),
                forall|j: int| 0 <= j < ms@.len() ==> (#[trigger] ms@[j]).module_wf(),
                forall|j: int| 0 <= j < all.len() ==> (#[trigger] all[j]).module_wf(),
                ms@ == with_modules(Seq::<Module>::empty(), all.subrange(0, i as int)),
            decreases taken@.len(),
        {
            let m = taken.pop().unwrap();
            proof {
                assert(m == all[i as int]);
                assert(all.subrange(0, i + 1).drop_last() =~= all.subrange(0, i as int));
                assert(all.subrange(0, i + 1).last() == all[i as int]);
                assert(taken@ =~= all.subrange(i + 1, all.len() as int).reverse());
                lemma_with_module_unique(ms@, m);
            }
            let ghost before = ms@;
            match find_module_index(&ms, m.name()) {
                Some(k) => {
                    ms.set(k, m);
                },
                None => {
                    ms.push(m);
                },
            }
            proof {
                assert(ms@ =~= with_module(before, all[i as int]));
                assert forall|j: int| 0 <= j < ms@.len() implies (#[trigger] ms@[j]).module_wf() by {
                    if ms@[j] != all[i as int] {
                        assert(before.contains(ms@[j]));
                    }
                }
            }
            i = i + 1;
        }
        proof {
            assert(all.subrange(0, all.len() as int) =~= all);
        }
        let p = Project { modules: ms, main_plot: Plot::new() };
        p
    }

    pub fn modules(&self) -> (m: &Vec<Module>)
        ensures
            m@ == self.spec_modules(),
    {
        &self.modules
    }

    /// The module named `name`, if any.
    pub fn module(&self, name: &String) -> (m: Option<&Module>)
        requires
            self.wf(),
        ensures
            match find_index(self.spec_modules(), name@) {
                Some(i) => m == Some(&self.spec_modules()[i]),
                None => m is None,
            },
    {
        match find_module_index(&self.modules, name) {
            Some(i) => {
                proof {
                    lemma_find_index_unique(self.modules@, name@, i as int);
                }
                Some(&self.modules[i])
            },
            None => None,
        }
    }

    pub fn main_plot(&self) -> (p: &Plot)
        ensures
            *p == self.spec_main_plot(),
    {
        &self.main_plot
    }

    /// The plot of the custom module named `module_name`, if any.
    pub fn plot(&self, module_name: &String) -> (p: Option<&Plot>)
        requires
            self.wf(),
        ensures
            match find_index(self.spec_modules(), module_name@) {
                Some(i) => match self.spec_modules()[i].spec_custom() {
                    Some(c) => p == Some(&c.spec_plot()),
                    None => p is None,
                },
                None => p is None,
            },
    {
        match self.module(module_name) {
            Some(m) => m.plot(),
            None => None,
        }
    }

    /// Removes the module named `module_name`, if there is one.
    pub fn remove_module(&mut self, module_name: &String)
        requires
            old(self).wf(),
        ensures
            final(self).wf(),
            final(self).spec_modules() == without_module(old(self).spec_modules(), module_name@),
            final(self).spec_main_plot() == old(self).spec_main_plot(),
    {
        match find_module_index(&self.modules, module_name) {
            Some(i) => {
                proof {
                    lemma_find_index_unique(self.modules@, module_name@, i as int);
                }
                self.modules.remove(i);
                proof {
                    let r = self.modules@;
                    let o = old(self).modules@;
                    assert forall|a: int, b: int| 0 <= a < b < r.len() implies (#[trigger] r[a]).spec_name()
                        != (#[trigger] r[b]).spec_name() by {
                        let oa = if a < i { a } else { a + 1 };
                        let ob = if b < i { b } else { b + 1 };
                        assert(r[a] == o[oa] && r[b] == o[ob]);
                    }
                    assert forall|a: int| 0 <= a < r.len() implies (#[trigger] r[a]).module_wf() by {
                        let oa = if a < i { a } else { a + 1 };
                        assert(r[a] == o[oa]);
                    }
                }
            },
            None => {},
        }
    }
}

/// The position of the module named `name`.
pub fn find_module_index(ms: &Vec<Module>, name: &String) -> (r: Option<usize>)
    ensures
        r matches Some(i) ==> i < ms@.len() && ms@[i as int].spec_name() == name@,
        r is None ==> forall|i: int| 0 <= i < ms@.len() ==> (#[trigger] ms@[i]).spec_name() != name@,
        r is None ==> find_index(ms@, name@) is None,
        r is Some ==> find_index(ms@, name@) is Some,
{
    let mut i: usize = 0;
    while i < ms.len()
        invariant
            0 <= i <= ms.len(),
            forall|j: int| 0 <= j < i ==> (#[trigger] ms@[j]).spec_name() != name@,
        decreases ms.len() - i,
    {
        if *ms[i].name() == *name {
            return Some(i);
        }
        i = i + 1;
    }
    None
}

impl Project {
    /// The position of the module named `name`, if any.
    pub(crate) fn index_of(&self, name: &String) -> (r: Option<usize>)
        requires
            self.wf(),
        ensures
            r matches Some(i) ==> find_index(self.spec_modules(), name@) == Some(i as int),
            r is None ==> find_index(self.spec_modules(), name@) is None,
    {
        let r = find_module_index(&self.modules, name);
        proof {
            if let Some(i) = r {
                lemma_find_index_unique(self.modules@, name@, i as int);
            }
        }
        r
    }

    /// Takes the module at position `i` out of the project.
    pub(crate) fn take_module(&mut self, i: usize) -> (m: Module)
        requires
            old(self).wf(),
            i < old(self).spec_modules().len(),
        ensures
            final(self).wf(),
            m == old(self).spec_modules()[i as int],
            final(self).spec_modules() == old(self).spec_modules().remove(i as int),
            final(self).spec_main_plot() == old(self).spec_main_plot(),
    {
        let m = self.modules.remove(i);
        proof {
            let r = self.modules@;
            let o = old(self).modules@;
            assert forall|a: int, b: int| 0 <= a < b < r.len() implies (#[trigger] r[a]).spec_name()
                != (#[trigger] r[b]).spec_name() by {
                let oa = if a < i { a } else { a + 1 };
                let ob = if b < i { b } else { b + 1 };
                assert(r[a] == o[oa] && r[b] == o[ob]);
            }
            assert forall|a: int| 0 <= a < r.len() implies (#[trigger] r[a]).module_wf() by {
                let oa = if a < i { a } else { a + 1 };
                assert(r[a] == o[oa]);
            }
        }
        m
    }

    /// Puts a module back at position `i`, where it was taken from.
    pub(crate) fn restore_module(&mut self, i: usize, m: Module, Ghost(names): Ghost<Seq<Seq<char>>>)
        requires
            old(self).wf(),
            m.module_wf(),
            i <= old(self).spec_modules().len(),
            names.len() == old(self).spec_modules().len() + 1,
            names_of(old(self).spec_modules()) == names.remove(i as int),
            names[i as int] == m.spec_name(),
            forall|a: int, b: int| 0 <= a < b < names.len() ==> #[trigger] names[a] != #[trigger] names[b],
        ensures
            final(self).wf(),
            final(self).spec_modules() == old(self).spec_modules().insert(i as int, m),
            names_of(final(self).spec_modules()) == names,
            final(self).spec_main_plot() == old(self).spec_main_plot(),
    {
        self.modules.insert(i, m);
        proof {
            let r = self.modules@;
            let o = old(self).modules@;
            assert forall|a: int| 0 <= a < r.len() implies #[trigger] r[a].spec_name() == names[a] by {
                if a < i {
                    assert(r[a] == o[a]);
                    assert(names_of(o)[a] == names.remove(i as int)[a]);
                } else if a > i {
                    assert(r[a] == o[a - 1]);
                    assert(names_of(o)[a - 1] == names.remove(i as int)[a - 1]);
                }
            }
            assert(names_of(r) =~= names);
            assert forall|a: int, b: int| 0 <= a < b < r.len() implies (#[trigger] r[a]).spec_name()
                != (#[trigger] r[b]).spec_name() by {
                assert(r[a].spec_name() == names[a]);
                assert(r[b].spec_name() == names[b]);
            }
            assert forall|a: int| 0 <= a < r.len() implies (#[trigger] r[a]).module_wf() by {
                if a < i {
                    assert(r[a] == o[a]);
                } else if a > i {
                    assert(r[a] == o[a - 1]);
                }
            }
        }
    }
}

/// `added` is `m` as `Project::add_module` stores it among modules `ms`:
/// the same module, with a fresh input block of the input module at
/// (50, 50) and a fresh output block of the output module at (400, 50)
/// placed on its plot (each where no wire names its identifier with pins
/// it lacks).
pub open spec fn module_added(m: Module, added: Module, ms: Seq<Module>) -> bool {
    &&& added.spec_name() == m.spec_name()
    &&& added.spec_category() == m.spec_category()
    &&& added.spec_builtin() == m.spec_builtin()
    &&& added.spec_num_inputs() == m.spec_num_inputs()
    &&& added.spec_num_outputs() == m.spec_num_outputs()
    &&& added.spec_decoration() == m.spec_decoration()
    &&& added.spec_custom() is Some == m.spec_custom() is Some
    &&& m.spec_custom() matches Some(c) ==> {
        let nc = added.spec_custom().unwrap();
        let cs = c.spec_plot().connections_view();
        let im = ms[find_index(ms, builtin_name(BuiltinKind::Input)).unwrap()];
        let om = ms[find_index(ms, builtin_name(BuiltinKind::Output)).unwrap()];
        &&& nc.spec_input_block() == c.spec_input_block()
        &&& nc.spec_output_block() == c.spec_output_block()
        &&& nc.spec_plot().connections_view() == cs
        &&& exists|a: BlockView, b: BlockView|
            #[trigger] is_new_sized(a, im, Vector2(50i32, 50i32), true, 0, m.spec_num_inputs())
                && #[trigger] is_new_sized(b, om, Vector2(400i32, 50i32), true, m.spec_num_outputs(), 0)
                && nc.spec_plot().blocks_view() == blocks_placed(cs, c.spec_plot().blocks_view(), seq![a, b])
    }
}

pub proof fn lemma_with_module_keeps_names(ms: Seq<Module>, m: Module, name: Seq<char>)
    requires
        find_index(ms, name) is Some || m.spec_name() == name,
    ensures
        find_index(with_module(ms, m), name) is Some,
{
    let r = with_module(ms, m);
    if m.spec_name() == name {
        match find_index(ms, m.spec_name()) {
            Some(i) => {
                assert(r[i].spec_name() == name);
            },
            None => {
                assert(r[ms.len() as int].spec_name() == name);
            },
        }
    } else {
        let i = find_index(ms, name).unwrap();
        assert(r[i].spec_name() == name);
    }
}

pub proof fn lemma_with_modules_has_name(ms: Seq<Module>, added: Seq<Module>, j: int)
    requires
        0 <= j < added.len(),
    ensures
        find_index(with_modules(ms, added), added[j].spec_name()) is Some,
    decreases added.len(),
{
    let d = added.drop_last();
    if j == added.len() - 1 {
        lemma_with_module_keeps_names(with_modules(ms, d), added.last(), added[j].spec_name());
    } else {
        lemma_with_modules_has_name(ms, d, j);
        assert(d[j] == added[j]);
        lemma_with_module_keeps_names(with_modules(ms, d), added.last(), added[j].spec_name());
    }
}

/// The errors among the per-plot simulation results `rs`, in order.
pub open spec fn sim_errors(rs: Seq<Option<SimResult<bool>>>) -> Seq<Seq<char>>
    decreases rs.len(),
{
    if rs.len() == 0 {
        seq![]
    } else {
        let earlier = sim_errors(rs.drop_last());
        match rs.last() {
            Some(Err(e)) => earlier.push(e@),
            _ => earlier,
        }
    }
}

/// Some plot simulation among `rs` reported changes.
pub open spec fn sim_changed(rs: Seq<Option<SimResult<bool>>>) -> bool {
    exists|i: int| 0 <= i < rs.len() && #[trigger] rs[i] == Some(SimResult::<bool>::Ok(true))
}

/// `cbs` reports the per-plot results `rs`: one error for each failed
/// simulation, in order, then a redraw request exactly when some plot
/// reported changes.
pub open spec fn callbacks_for(cbs: Seq<UICallback>, rs: Seq<Option<SimResult<bool>>>) -> bool {
    let es = sim_errors(rs);
    &&& cbs.len() == es.len() + if sim_changed(rs) {
        1int
    } else {
        0int
    }
    &&& forall|i: int| 0 <= i < es.len() ==> (#[trigger] cbs[i] matches UICallback::Error(s) && s@ == es[i])
    &&& sim_changed(rs) ==> cbs.last() is Redraw
}

proof fn lemma_sim_record_push(rs: Seq<Option<SimResult<bool>>>, x: Option<SimResult<bool>>)
    ensures
        sim_errors(rs.push(x)) == match x {
            Some(Err(e)) => sim_errors(rs).push(e@),
            _ => sim_errors(rs),
        },
        sim_changed(rs.push(x)) == (sim_changed(rs) || x == Some(SimResult::<bool>::Ok(true))),
{
    assert(rs.push(x).drop_last() =~= rs);
    if sim_changed(rs) {
        let i = choose|i: int| 0 <= i < rs.len() && #[trigger] rs[i] == Some(SimResult::<bool>::Ok(true));
        assert(rs.push(x)[i] == rs[i]);
    }
    if x == Some(SimResult::<bool>::Ok(true)) {
        assert(rs.push(x)[rs.len() as int] == x);
    }
    if sim_changed(rs.push(x)) {
        let i = choose|i: int| 0 <= i < rs.len() + 1 && #[trigger] rs.push(x)[i] == Some(SimResult::<bool>::Ok(true));
        if i < rs.len() {
            assert(rs[i] == rs.push(x)[i]);
        }
    }
}

/// No plot of the project has blocks waiting to be simulated.
pub open spec fn nothing_pending(p: Project) -> bool {
    &&& p.spec_main_plot().spec_to_update().len() == 0
    &&& forall|i: int|
        0 <= i < p.spec_modules().len() ==> ((#[trigger] p.spec_modules()[i]).spec_custom() matches Some(c)
            ==> c.spec_plot().spec_to_update().len() == 0)
}

/// Each module of `b` is that of `a` up to the dynamic state of its plot,
/// and the plot of each custom module at a position from `lo` to before
/// `hi` holds one snapshot more than in `a`.
pub open spec fn stacks_offset(a: Seq<Module>, b: Seq<Module>, lo: int, hi: int) -> bool {
    &&& a.len() == b.len()
    &&& forall|x: int|
        0 <= x < a.len() ==> module_shape_same(#[trigger] a[x], b[x]) && stack_len(b[x]) == stack_len(a[x]) + if lo
            <= x < hi && a[x].spec_custom() is Some {
            1int
        } else {
            0int
        }
}

/// The result `r` of module `j` of `ms` in one step is that of a
/// simulation run (see `plot_run`) of a plot of the same blocks as the
/// module's own plot, against the other modules, their plots holding one
/// snapshot more.
pub open spec fn module_ran(ms: Seq<Module>, j: int, r: SimResult<bool>) -> bool {
    exists|start: Plot, others: Seq<Module>, ran: Plot|
        #![trigger plot_run(start, others, r, ran)]
        {
            &&& plot_run(start, others, r, ran)
            &&& same_shape(ms[j].spec_custom().unwrap().spec_plot().blocks_view(), start.blocks_view())
            &&& stacks_offset(ms.remove(j), others, 0, ms.len() as int)
        }
}

proof fn lemma_stacks_offset_remove(a: Seq<Module>, b: Seq<Module>, j: int, n: int)
    requires
        stacks_offset(a, b, 0, n),
        n >= a.len(),
        0 <= j < a.len(),
    ensures
        stacks_offset(a.remove(j), b.remove(j), 0, n),
{
    assert forall|x: int| 0 <= x < a.remove(j).len() implies module_shape_same(#[trigger] a.remove(j)[x], b.remove(j)[x])
        && stack_len(b.remove(j)[x]) == stack_len(a.remove(j)[x]) + if 0 <= x < n && a.remove(j)[x].spec_custom() is Some {
        1int
    } else {
        0int
    } by {
        let y = if x < j { x } else { x + 1 };
        assert(a.remove(j)[x] == a[y]);
        assert(b.remove(j)[x] == b[y]);
    }
}

proof fn lemma_stacks_offset_shape(a: Seq<Module>, b: Seq<Module>, c: Seq<Module>, lo: int, hi: int)
    requires
        stacks_offset(a, b, lo, hi),
        modules_shape_same(b, c),
    ensures
        stacks_offset(a, c, lo, hi),
{
    assert forall|x: int| 0 <= x < a.len() implies module_shape_same(#[trigger] a[x], c[x]) && stack_len(c[x])
        == stack_len(a[x]) + if lo <= x < hi && a[x].spec_custom() is Some {
        1int
    } else {
        0int
    } by {
        assert(module_shape_same(b[x], c[x]) && stack_len(b[x]) == stack_len(c[x]));
        lemma_module_shape_trans(a[x], b[x], c[x]);
    }
}

/// Replacing module `i` of `b` by `m`, of the same shape, with the offset
/// that the range `lo2`..`hi2` gives it, moves `i` from range `lo`..`hi`
/// to that one; the two ranges agree elsewhere.
proof fn lemma_stacks_offset_update(
    a: Seq<Module>,
    b: Seq<Module>,
    i: int,
    m: Module,
    lo: int,
    hi: int,
    lo2: int,
    hi2: int,
)
    requires
        stacks_offset(a, b, lo, hi),
        0 <= i < a.len(),
        module_shape_same(b[i], m),
        (lo2 == lo && hi == i && hi2 == i + 1) || (hi2 == hi && lo == i && lo2 == i + 1),
        stack_len(m) == stack_len(a[i]) + if lo2 <= i < hi2 && a[i].spec_custom() is Some {
            1int
        } else {
            0int
        },
    ensures
        stacks_offset(a, b.update(i, m), lo2, hi2),
{
    assert forall|x: int| 0 <= x < a.len() implies module_shape_same(#[trigger] a[x], b.update(i, m)[x]) && stack_len(
        b.update(i, m)[x],
    ) == stack_len(a[x]) + if lo2 <= x < hi2 && a[x].spec_custom() is Some {
        1int
    } else {
        0int
    } by {
        if x == i {
            lemma_module_shape_trans(a[x], b[x], m);
        }
    }
}

/// Taking module `i` out and putting `m` back in its place replaces it.
proof fn lemma_remove_insert(ms: Seq<Module>, i: int, m: Module)
    requires
        0 <= i < ms.len(),
    ensures
        ms.remove(i).insert(i, m) == ms.update(i, m),
{
    assert(ms.remove(i).insert(i, m) =~= ms.update(i, m));
}

impl Project {
    /// Adds a module, replacing the one of the same name; a custom module
    /// gets an input block and an output block placed on its plot.
    pub fn add_module(&mut self, module: Module)
        requires
            old(self).wf(),
            module.module_wf(),
            module.spec_num_inputs() <= crate::collect::MAX_PINS,
            module.spec_num_outputs() <= crate::collect::MAX_PINS,
            module.spec_custom() is Some ==> find_index(old(self).spec_modules(), builtin_name(BuiltinKind::Input))
                is Some && find_index(old(self).spec_modules(), builtin_name(BuiltinKind::Output)) is Some,
        ensures
            final(self).wf(),
            final(self).spec_main_plot() == old(self).spec_main_plot(),
            ({
                let i = find_index(final(self).spec_modules(), module.spec_name());
                &&& i is Some
                &&& final(self).spec_modules() == with_module(
                    old(self).spec_modules(),
                    final(self).spec_modules()[i.unwrap()],
                )
                &&& module_added(module, final(self).spec_modules()[i.unwrap()], old(self).spec_modules())
            }),
    {
        let mut module = module;
        let ghost m0 = module;
        let num_inputs = module.get_num_inputs();
        let num_outputs = module.get_num_outputs();
        if module.plot().is_some() {
            let input_name = input_module_name();
            let input_module = self.module(&input_name).unwrap();
            let input = Block::new_sized(input_module, Vector2(50, 50), true, 0, num_inputs);
            let ghost m1 = module;
            module.add_block_to_plot(input);
            let output_name = output_module_name();
            let output_module = self.module(&output_name).unwrap();
            let output = Block::new_sized(output_module, Vector2(400, 50), true, num_outputs, 0);
            let ghost m2 = module;
            module.add_block_to_plot(output);
            proof {
                let c = m0.spec_custom().unwrap();
                let cs = c.spec_plot().connections_view();
                let ob = c.spec_plot().blocks_view();
                let nb = module.spec_custom().unwrap().spec_plot().blocks_view();
                let b1 = m2.spec_custom().unwrap().spec_plot().blocks_view();
                let one = seq![input@];
                let two = seq![input@, output@];
                assert(two.drop_last() =~= one);
                assert(one.drop_last() =~= Seq::<BlockView>::empty());
                assert(blocks_placed(cs, ob, one.drop_last()) == ob);
                assert(b1 == blocks_placed(cs, ob, one));
                assert(m2.spec_custom().unwrap().spec_plot().connections_view() == cs);
                assert(nb == blocks_placed(cs, ob, two));
            }
        }
        let ghost before = self.modules@;
        match find_module_index(&self.modules, module.name()) {
            Some(k) => {
                proof {
                    lemma_find_index_unique(before, module.spec_name(), k as int);
                }
                self.modules.set(k, module);
            },
            None => {
                self.modules.push(module);
            },
        }
        proof {
            let m = module;
            assert(self.modules@ =~= with_module(before, m));
            lemma_with_module_unique(before, m);
            assert forall|j: int| 0 <= j < self.modules@.len() implies (#[trigger] self.modules@[j]).module_wf() by {
                if self.modules@[j] != m {
                    assert(before.contains(self.modules@[j]));
                }
            }
            lemma_with_module_keeps_names(before, m, m.spec_name());
            let i = find_index(self.modules@, m.spec_name()).unwrap();
            lemma_find_index_unique(self.modules@, m.spec_name(), i);
            match find_index(before, m.spec_name()) {
                Some(k) => {
                    assert(self.modules@[k] == m);
                    lemma_find_index_unique(self.modules@, m.spec_name(), k);
                },
                None => {
                    assert(self.modules@[before.len() as int] == m);
                    lemma_find_index_unique(self.modules@, m.spec_name(), before.len() as int);
                },
            }
        }
    }
}

/// Every predefined module is named after its kind.
pub proof fn lemma_builtin_modules_wf(ms: Seq<Module>)
    requires
        ms.len() == all_kinds().len(),
        forall|i: int| 0 <= i < ms.len() ==> (#[trigger] ms[i]).spec_name() == builtin_name(all_kinds()[i])
            && ms[i].spec_builtin() && ms[i].spec_custom() is None,
    ensures
        forall|i: int| 0 <= i < ms.len() ==> (#[trigger] ms[i]).module_wf(),
{
    assert forall|i: int| 0 <= i < ms.len() implies (#[trigger] ms[i]).module_wf() by {
        let k = all_kinds()[i];
        assert(kind_of_name(builtin_name(k)) is Some);
    }
}

impl Default for Project {
    /// A project with every predefined module and an empty main plot.
    fn default() -> (p: Self)
        ensures
            p.wf(),
            find_index(p.spec_modules(), builtin_name(BuiltinKind::Input)) is Some,
            find_index(p.spec_modules(), builtin_name(BuiltinKind::Output)) is Some,
            p.spec_main_plot().blocks_view().len() == 0,
            p.spec_main_plot().connections_view().len() == 0,
    {
        let ms = builtin_modules();
        proof {
            lemma_builtin_modules_wf(ms@);
            lemma_with_modules_has_name(Seq::<Module>::empty(), ms@, 12);
            lemma_with_modules_has_name(Seq::<Module>::empty(), ms@, 13);
        }
        Project::new(ms)
    }
}

impl Project {
    /// Exchanges the plot that `descriptor` names with `plot`; returns
    /// whether that plot exists (the main plot always does; a module's
    /// plot does when the module exists and is not a predefined).
    pub fn swap_plot(&mut self, descriptor: &PlotDescriptor, plot: &mut Plot) -> (swapped: bool)
        requires
            old(self).wf(),
            old(plot).wf(),
            pins_bounded(old(plot).blocks_view()),
        ensures
            final(self).wf(),
            final(plot).wf(),
            pins_bounded(final(plot).blocks_view()),
            names_of(final(self).spec_modules()) == names_of(old(self).spec_modules()),
            swapped == plot_at(*old(self), which_plot(*descriptor)) is Some,
            swapped ==> plot_at(*final(self), which_plot(*descriptor)) == Some(*old(plot)) && *final(plot)
                == plot_at(*old(self), which_plot(*descriptor)).unwrap(),
            !swapped ==> final(self).spec_modules() == old(self).spec_modules() && final(self).spec_main_plot()
                == old(self).spec_main_plot() && *final(plot) == *old(plot),
            forall|w: Option<Seq<char>>| w != which_plot(*descriptor) ==> #[trigger] plot_at(*final(self), w)
                == plot_at(*old(self), w),
            match descriptor {
                PlotDescriptor::Main() => {
                    &&& swapped
                    &&& final(self).spec_main_plot() == *old(plot)
                    &&& *final(plot) == old(self).spec_main_plot()
                    &&& final(self).spec_modules() == old(self).spec_modules()
                },
                PlotDescriptor::Module(name) => match find_index(old(self).spec_modules(), name@) {
                    Some(i) => {
                        let m = old(self).spec_modules()[i];
                        &&& swapped == m.spec_custom() is Some
                        &&& final(self).spec_main_plot() == old(self).spec_main_plot()
                        &&& final(self).spec_modules().len() == old(self).spec_modules().len()
                        &&& forall|j: int| 0 <= j < old(self).spec_modules().len() && j != i ==> #[trigger] final(self).spec_modules()[j]
                            == old(self).spec_modules()[j]
                        &&& swapped ==> {
                            let nm = final(self).spec_modules()[i];
                            &&& nm.spec_custom().unwrap().spec_plot() == *old(plot)
                            &&& *final(plot) == m.spec_custom().unwrap().spec_plot()
                            &&& nm.spec_custom().unwrap().spec_input_block() == m.spec_custom().unwrap().spec_input_block()
                            &&& nm.spec_custom().unwrap().spec_output_block() == m.spec_custom().unwrap().spec_output_block()
                            &&& nm.spec_builtin() == m.spec_builtin()
                            &&& nm.spec_num_inputs() == m.spec_num_inputs()
                            &&& nm.spec_num_outputs() == m.spec_num_outputs()
                        }
                        &&& !swapped ==> final(self).spec_modules() == old(self).spec_modules() && *final(plot) == *old(plot)
                    },
                    None => !swapped && final(self).spec_modules() == old(self).spec_modules() && *final(plot)
                        == *old(plot) && final(self).spec_main_plot() == old(self).spec_main_plot(),
                },
            },
    {
        match descriptor {
            PlotDescriptor::Main() => {
                core::mem::swap(&mut self.main_plot, plot);
                true
            },
            PlotDescriptor::Module(name) => {
                match self.index_of(name) {
                    Some(i) => {
                        let ghost names = names_of(self.spec_modules());
                        let mut m = self.take_module(i);
                        proof {
                            assert(names_of(self.spec_modules()) =~= names.remove(i as int));
                        }
                        let swapped = m.swap_plot(plot);
                        self.restore_module(i, m, Ghost(names));
                        proof {
                            assert forall|j: int| 0 <= j < old(self).spec_modules().len() && j != i implies #[trigger] self.spec_modules()[j]
                                == old(self).spec_modules()[j] by {
                                if j < i {
                                } else {
                                }
                            }
                            if !swapped {
                                assert(self.spec_modules() =~= old(self).spec_modules());
                            }
                            lemma_find_index_unique(old(self).spec_modules(), name@, i as int);
                            lemma_find_index_unique(self.spec_modules(), name@, i as int);
                            assert forall|w: Option<Seq<char>>| w != which_plot(*descriptor) implies #[trigger] plot_at(*self, w)
                                == plot_at(*old(self), w) by {
                                if let Some(n) = w {
                                    match find_index(old(self).spec_modules(), n) {
                                        Some(j) => {
                                            assert(old(self).spec_modules()[j].spec_name() == n);
                                            assert(j != i);
                                            assert(self.spec_modules()[j] == old(self).spec_modules()[j]);
                                            lemma_find_index_unique(old(self).spec_modules(), n, j);
                                            lemma_find_index_unique(self.spec_modules(), n, j);
                                        },
                                        None => {
                                            if find_index(self.spec_modules(), n) is Some {
                                                let j = find_index(self.spec_modules(), n).unwrap();
                                                assert(self.spec_modules()[j].spec_name() == n);
                                                assert(names_of(self.spec_modules())[j] == names_of(old(self).spec_modules())[j]);
                                                assert(old(self).spec_modules()[j].spec_name() == n);
                                            }
                                        },
                                    }
                                }
                            }
                        }
                        swapped
                    },
                    None => {
                        proof {
                            assert forall|w: Option<Seq<char>>| w != which_plot(*descriptor) implies #[trigger] plot_at(*self, w)
                                == plot_at(*old(self), w) by {}
                        }
                        false
                    },
                }
            },
        }
    }

    /// One simulation step of every plot: each plot's states are saved,
    /// then each plot in turn gets its own saved states back, is simulated
    /// and saved again, and finally every plot gets its latest saved
    /// states back. Returns an error for each plot whose simulation failed,
    /// then a redraw request if any plot had blocks waiting.
    pub fn simulate(&mut self) -> (callbacks: Vec<UICallback>)
        requires
            old(self).wf(),
        ensures
            final(self).wf(),
            names_of(final(self).spec_modules()) == names_of(old(self).spec_modules()),
            modules_shape_same(old(self).spec_modules(), final(self).spec_modules()),
            final(self).spec_main_plot().spec_states().len() == old(self).spec_main_plot().spec_states().len(),
            forall|i: int| 0 <= i < callbacks@.len() - 1 ==> #[trigger] callbacks@[i] is Error,
            callbacks@.len() <= old(self).spec_modules().len() + 2,
            nothing_pending(*old(self)) ==> callbacks@.len() == 0,
            callbacks@.len() > 0 && callbacks@.last() is Redraw ==> !nothing_pending(*old(self)),
            old(self).spec_main_plot().spec_to_update().len() > 0 ==> callbacks@.len() > 0,
            exists|rs: Seq<Option<SimResult<bool>>>|
                {
                    &&& #[trigger] callbacks_for(callbacks@, rs)
                    &&& rs.len() == old(self).spec_modules().len() + 1
                    &&& rs[0] is Some
                    &&& rs[0] matches Some(r0) && exists|ran: Plot, ms: Seq<Module>|
                        #![trigger plot_run(old(self).spec_main_plot(), ms, r0, ran)]
                        {
                            &&& plot_run(old(self).spec_main_plot(), ms, r0, ran)
                            &&& stacks_offset(old(self).spec_modules(), ms, 0, old(self).spec_modules().len() as int)
                            &&& final(self).spec_main_plot().blocks_view() == ran.blocks_view()
                            &&& final(self).spec_main_plot().connections_view() == ran.connections_view()
                            &&& final(self).spec_main_plot().spec_to_update() == ran.spec_to_update()
                            &&& final(self).spec_main_plot().spec_states() == ran.spec_states()
                            &&& final(self).spec_main_plot().spec_selection() == ran.spec_selection()
                        }
                    &&& forall|i: int|
                        0 <= i < old(self).spec_modules().len() ==> (#[trigger] rs[i + 1] is Some <==> old(
                            self,
                        ).spec_modules()[i].spec_custom() is Some)
                    &&& forall|i: int|
                        0 <= i < old(self).spec_modules().len() ==> (#[trigger] rs[i + 1] matches Some(r)
                            ==> module_ran(old(self).spec_modules(), i, r))
                    &&& rs[0] matches Some(Ok(c)) ==> c == (old(self).spec_main_plot().spec_to_update().len() > 0)
                    &&& forall|i: int| 0 <= i < rs.len() ==> (#[trigger] rs[i] matches Some(Err(e)) ==> is_recursion_error(e@))
                },
    {
        let mut call_stack: Vec<String> = Vec::new();
        let mut changes = false;
        let mut errors: Vec<String> = Vec::new();
        let ghost names = names_of(self.spec_modules());
        let ghost idle = nothing_pending(*self);
        let ghost main_pending = self.spec_main_plot().spec_to_update().len() > 0;
        let n = self.modules.len();

        self.main_plot.push_state();
        let ghost p1 = self.spec_main_plot();
        let mut i: usize = 0;
        proof {
            let o = old(self).spec_modules();
            assert forall|x: int| 0 <= x < o.len() implies module_shape_same(#[trigger] o[x], self.spec_modules()[x])
                && stack_len(self.spec_modules()[x]) == stack_len(o[x]) + if 0 <= x < 0 && o[x].spec_custom() is Some {
                1int
            } else {
                0int
            } by {
                assert(self.spec_modules()[x] == o[x]);
                if o[x].spec_custom() is Some {
                    let bv = o[x].spec_custom().unwrap().spec_plot().blocks_view();
                    assert(crate::plot::same_shape(bv, bv));
                }
            }
        }
        while i < n
            invariant
                0 <= i <= n,
                n == self.spec_modules().len(),
                self.wf(),
                names_of(self.spec_modules()) == names,
                idle == nothing_pending(*old(self)),
                idle ==> nothing_pending(*self),
                main_pending == (old(self).spec_main_plot().spec_to_update().len() > 0),
                self.spec_main_plot().spec_to_update() == old(self).spec_main_plot().spec_to_update(),
                stacks_offset(old(self).spec_modules(), self.spec_modules(), 0, i as int),
                self.spec_main_plot() == p1,
                self.spec_main_plot().spec_states().len() == old(self).spec_main_plot().spec_states().len() + 1,
            decreases n - i,
        {
            let ghost before = self.spec_modules();
            let mut m = self.take_module(i);
            proof {
                assert(names_of(self.spec_modules()) =~= names.remove(i as int));
            }
            let ghost m0 = m;
            m.push_plot_state();
            let ghost m1 = m;
            self.restore_module(i, m, Ghost(names));
            proof {
                lemma_remove_insert(before, i as int, m1);
                assert(m0 == before[i as int]);
                lemma_stacks_offset_update(old(self).spec_modules(), before, i as int, m1, 0, i as int, 0, i + 1);
                if idle {
                    assert forall|x: int| 0 <= x < self.spec_modules().len() implies ((#[trigger] self.spec_modules()[x]).spec_custom() matches Some(c)
                        ==> c.spec_plot().spec_to_update().len() == 0) by {
                        assert(before[x].spec_custom() matches Some(c) ==> c.spec_plot().spec_to_update().len() == 0);
                    }
                }
            }
            i = i + 1;
        }

        let mut main = Plot::new();
        core::mem::swap(&mut main, &mut self.main_plot);
        let ghost mb = main.blocks_view();
        let ghost ms = main.spec_states();
        main.pop_state();
        proof {
            if ms.len() > 0 {
                crate::plot::lemma_applied_same_shape(mb, ms.last().spec_blocks());
            } else {
                assert(same_shape(mb, main.blocks_view()));
            }
            crate::plot::lemma_pins_bounded_same_shape(mb, main.blocks_view());
        }
        let ghost m_pre = self.spec_modules();
        let ghost p2 = main;
        let main_result = main.simulate(self, &mut call_stack);
        let ghost ran0 = main;
        proof {
            lemma_stacks_offset_shape(old(self).spec_modules(), m_pre, self.spec_modules(), 0, n as int);
        }
        let ghost mut rs: Seq<Option<SimResult<bool>>> = seq![Some(main_result)];
        proof {
            lemma_sim_record_push(Seq::<Option<SimResult<bool>>>::empty(), Some(main_result));
            assert(Seq::<Option<SimResult<bool>>>::empty().push(Some(main_result)) =~= rs);
            assert(sim_errors(Seq::<Option<SimResult<bool>>>::empty()) =~= Seq::<Seq<char>>::empty());
            assert(!sim_changed(Seq::<Option<SimResult<bool>>>::empty()));
        }
        match main_result {
            Ok(c) => {
                if c {
                    changes = true;
                }
            },
            Err(e) => {
                errors.push(e);
            },
        }
        main.push_state();
        core::mem::swap(&mut main, &mut self.main_plot);
        let ghost p4 = self.spec_main_plot();
        proof {
            crate::plot::lemma_push_then_pop(old(self).spec_main_plot(), p1, p2);
            assert(plot_run(old(self).spec_main_plot(), m_pre, main_result, ran0));
            if idle {
                assert(self.spec_main_plot().spec_to_update().len() == 0);
                assert(!changes && errors@.len() == 0);
            }
            if main_pending {
                assert(changes || errors@.len() > 0);
            }
        }

        let mut j: usize = 0;
        while j < n
            invariant
                0 <= j <= n,
                n == self.spec_modules().len(),
                self.wf(),
                names_of(self.spec_modules()) == names,
                call_stack@.len() == 0,
                errors@.len() <= j + 1,
                idle == nothing_pending(*old(self)),
                idle ==> nothing_pending(*self) && !changes && errors@.len() == 0,
                changes ==> !idle,
                main_pending == (old(self).spec_main_plot().spec_to_update().len() > 0),
                main_pending ==> changes || errors@.len() > 0,
                rs.len() == j + 1,
                rs[0] is Some,
                rs[0] matches Some(Ok(c)) ==> c == main_pending,
                forall|x: int| 0 <= x < rs.len() ==> (#[trigger] rs[x] matches Some(Err(e)) ==> is_recursion_error(e@)),
                errors@.map_values(|s: String| s@) == sim_errors(rs),
                changes == sim_changed(rs),
                stacks_offset(old(self).spec_modules(), self.spec_modules(), 0, n as int),
                self.spec_main_plot().spec_states().len() == old(self).spec_main_plot().spec_states().len() + 1,
                self.spec_main_plot() == p4,
                plot_run(old(self).spec_main_plot(), m_pre, main_result, ran0),
                stacks_offset(old(self).spec_modules(), m_pre, 0, n as int),
                crate::plot::state_pushed(ran0, p4),
                rs[0] == Some(main_result),
                forall|x: int|
                    0 <= x < j ==> (#[trigger] rs[x + 1] is Some <==> old(self).spec_modules()[x].spec_custom() is Some),
                forall|x: int|
                    0 <= x < j ==> (#[trigger] rs[x + 1] matches Some(r) ==> module_ran(old(self).spec_modules(), x, r)),
            decreases n - j,
        {
            let ghost before = self.spec_modules();
            let mut m = self.take_module(j);
            proof {
                assert(names_of(self.spec_modules()) =~= names.remove(j as int));
                if idle {
                    assert(before[j as int] == m);
                }
            }
            let ghost m0 = m;
            let ghost rest = self.spec_modules();
            let r = m.simulate_plot(self, &mut call_stack);
            let ghost rest2 = self.spec_modules();
            let ghost e0 = errors@;
            proof {
                lemma_sim_record_push(rs, r);
                let rs2 = rs.push(r);
                assert(m0 == before[j as int]);
                assert(module_shape_same(old(self).spec_modules()[j as int], before[j as int]));
                assert forall|x: int| 0 <= x < j + 1 implies (#[trigger] rs2[x + 1] is Some <==> old(
                    self,
                ).spec_modules()[x].spec_custom() is Some) by {
                    if x < j {
                        assert(rs2[x + 1] == rs[x + 1]);
                    }
                }
                if r is Some {
                    let res = r.unwrap();
                    let o = old(self).spec_modules();
                    let c = m0.spec_custom().unwrap();
                    let (start, ran) = choose|start: Plot, ran: Plot|
                        #![trigger crate::plot::state_popped(c.spec_plot(), start), plot_run(start, rest, res, ran)]
                        {
                            &&& crate::plot::state_popped(c.spec_plot(), start)
                            &&& plot_run(start, rest, res, ran)
                            &&& crate::plot::state_pushed(ran, m.spec_custom().unwrap().spec_plot())
                        };
                    let pb = c.spec_plot();
                    if pb.spec_states().len() > 0 {
                        crate::plot::lemma_applied_same_shape(pb.blocks_view(), pb.spec_states().last().spec_blocks());
                    }
                    assert(same_shape(pb.blocks_view(), start.blocks_view()));
                    crate::plot::lemma_same_shape_trans(
                        o[j as int].spec_custom().unwrap().spec_plot().blocks_view(),
                        pb.blocks_view(),
                        start.blocks_view(),
                    );
                    assert(rest == before.remove(j as int));
                    lemma_stacks_offset_remove(o, before, j as int, n as int);
                    assert(module_ran(o, j as int, res));
                }
                assert forall|x: int| 0 <= x < j + 1 implies (#[trigger] rs2[x + 1] matches Some(r) ==> module_ran(
                    old(self).spec_modules(),
                    x,
                    r,
                )) by {
                    if x < j {
                        assert(rs2[x + 1] == rs[x + 1]);
                    }
                }
                assert forall|x: int| 0 <= x < rs2.len() implies (#[trigger] rs2[x] matches Some(Err(e)) ==> is_recursion_error(e@)) by {
                    if x < rs.len() {
                        assert(rs2[x] == rs[x]);
                    }
                }
                rs = rs2;
            }
            match r {
                Some(Ok(c)) => {
                    if c {
                        changes = true;
                    }
                },
                Some(Err(e)) => {
                    errors.push(e);
                },
                None => {},
            }
            proof {
                assert(self.spec_modules().len() == names_of(self.spec_modules()).len());
                assert(errors@.map_values(|s: String| s@) =~= sim_errors(rs));
            }
            let ghost m1 = m;
            self.restore_module(j, m, Ghost(names));
            proof {
                lemma_remove_insert(before, j as int, m1);
                assert(rest == before.remove(j as int));
                lemma_modules_shape_reinsert(before, j as int, rest2, m1);
                lemma_stacks_offset_shape(old(self).spec_modules(), before, self.spec_modules(), 0, n as int);
                if idle {
                    assert forall|x: int| 0 <= x < self.spec_modules().len() implies ((#[trigger] self.spec_modules()[x]).spec_custom() matches Some(c)
                        ==> c.spec_plot().spec_to_update().len() == 0) by {
                        assert(before[x].spec_custom() matches Some(c) ==> c.spec_plot().spec_to_update().len() == 0);
                    }
                }
            }
            j = j + 1;
        }

        self.main_plot.pop_state();
        let ghost p5 = self.spec_main_plot();
        proof {
            crate::plot::lemma_push_then_pop(ran0, p4, p5);
        }
        let mut k: usize = 0;
        while k < n
            invariant
                0 <= k <= n,
                n == self.spec_modules().len(),
                self.wf(),
                names_of(self.spec_modules()) == names,
                idle == nothing_pending(*old(self)),
                idle ==> !changes && errors@.len() == 0,
                changes ==> !idle,
                main_pending == (old(self).spec_main_plot().spec_to_update().len() > 0),
                main_pending ==> changes || errors@.len() > 0,
                rs.len() == n + 1,
                rs[0] is Some,
                rs[0] matches Some(Ok(c)) ==> c == main_pending,
                forall|x: int| 0 <= x < rs.len() ==> (#[trigger] rs[x] matches Some(Err(e)) ==> is_recursion_error(e@)),
                errors@.map_values(|s: String| s@) == sim_errors(rs),
                changes == sim_changed(rs),
                stacks_offset(old(self).spec_modules(), self.spec_modules(), k as int, n as int),
                self.spec_main_plot() == p5,
                plot_run(old(self).spec_main_plot(), m_pre, main_result, ran0),
                stacks_offset(old(self).spec_modules(), m_pre, 0, n as int),
                p5.blocks_view() == ran0.blocks_view(),
                p5.connections_view() == ran0.connections_view(),
                p5.spec_to_update() == ran0.spec_to_update(),
                p5.spec_states() == ran0.spec_states(),
                p5.spec_selection() == ran0.spec_selection(),
                rs[0] == Some(main_result),
                self.spec_main_plot().spec_states().len() == old(self).spec_main_plot().spec_states().len(),
                forall|x: int|
                    0 <= x < n ==> (#[trigger] rs[x + 1] is Some <==> old(self).spec_modules()[x].spec_custom() is Some),
                forall|x: int|
                    0 <= x < n ==> (#[trigger] rs[x + 1] matches Some(r) ==> module_ran(old(self).spec_modules(), x, r)),
            decreases n - k,
        {
            let ghost before = self.spec_modules();
            let mut m = self.take_module(k);
            proof {
                assert(names_of(self.spec_modules()) =~= names.remove(k as int));
            }
            m.pop_plot_state();
            let ghost m1 = m;
            self.restore_module(k, m, Ghost(names));
            proof {
                lemma_remove_insert(before, k as int, m1);
                lemma_stacks_offset_update(old(self).spec_modules(), before, k as int, m1, k as int, n as int, k + 1, n as int);
            }
            k = k + 1;
        }

        let mut callbacks: Vec<UICallback> = Vec::new();
        let mut e: usize = 0;
        while e < errors.len()
            invariant
                0 <= e <= errors.len(),
                callbacks@.len() == e,
                forall|x: int| 0 <= x < callbacks@.len() ==> #[trigger] callbacks@[x] is Error,
                forall|x: int| 0 <= x < callbacks@.len() ==> (#[trigger] callbacks@[x] matches UICallback::Error(s) && s@ == errors@[x]@),
            decreases errors.len() - e,
        {
            callbacks.push(UICallback::Error(errors[e].clone()));
            e = e + 1;
        }
        if changes {
            callbacks.push(UICallback::Redraw);
        }
        proof {
            let es = sim_errors(rs);
            assert(es.len() == errors@.len());
            assert forall|x: int| 0 <= x < es.len() implies (#[trigger] callbacks@[x] matches UICallback::Error(s) && s@ == es[x]) by {
                assert(es[x] == errors@.map_values(|s: String| s@)[x]);
            }
            assert(callbacks_for(callbacks@, rs));
            let o = old(self).spec_modules();
            assert forall|x: int| 0 <= x < o.len() implies module_shape_same(#[trigger] o[x], self.spec_modules()[x])
                && stack_len(o[x]) == stack_len(self.spec_modules()[x]) by {
                assert(module_shape_same(o[x], self.spec_modules()[x]));
            }
        }
        callbacks
    }

}

/// `Project::add_module` can place `m`: its pins fit the simulator and a
/// custom module finds the input and output modules.
pub open spec fn module_addable(p: Project, m: Module) -> bool {
    &&& m.spec_num_inputs() <= crate::collect::MAX_PINS
    &&& m.spec_num_outputs() <= crate::collect::MAX_PINS
    &&& m.spec_custom() is Some ==> find_index(p.spec_modules(), builtin_name(BuiltinKind::Input)) is Some
        && find_index(p.spec_modules(), builtin_name(BuiltinKind::Output)) is Some
}

impl Project {
    /// Whether `Project::add_module` can place `module` (see
    /// `module_addable`).
    pub fn can_add_module(&self, module: &Module) -> (b: bool)
        requires
            self.wf(),
        ensures
            b == module_addable(*self, *module),
    {
        if module.get_num_inputs() as usize > crate::collect::MAX_PINS || module.get_num_outputs() as usize
            > crate::collect::MAX_PINS {
            return false;
        }
        if module.plot().is_none() {
            return true;
        }
        let i = self.index_of(&input_module_name());
        let o = self.index_of(&output_module_name());
        i.is_some() && o.is_some()
    }
}

impl Project {
    /// Adds a module as it is, replacing the one of the same name.
    pub fn add_existing_module(&mut self, m: Module)
        requires
            old(self).wf(),
            m.module_wf(),
        ensures
            final(self).wf(),
            final(self).spec_modules() == with_module(old(self).spec_modules(), m),
            final(self).spec_main_plot() == old(self).spec_main_plot(),
    {
        let ghost before = self.modules@;
        proof {
            lemma_with_module_unique(before, m);
        }
        match find_module_index(&self.modules, m.name()) {
            Some(k) => {
                proof {
                    lemma_find_index_unique(before, m.spec_name(), k as int);
                }
                self.modules.set(k, m);
            },
            None => {
                self.modules.push(m);
            },
        }
        proof {
            assert(self.modules@ =~= with_module(before, m));
            assert forall|j: int| 0 <= j < self.modules@.len() implies (#[trigger] self.modules@[j]).module_wf() by {
                if self.modules@[j] != m {
                    assert(before.contains(self.modules@[j]));
                }
            }
        }
    }
}

impl Project {
    /// A project with the given modules and main plot, when they make a
    /// sound project: unique module names, modules that can be simulated,
    /// and a well-formed main plot whose pins fit the simulator.
    pub fn from_parts(modules: Vec<Module>, main_plot: Plot) -> (p: Option<Project>)
        ensures
            p matches Some(pr) ==> pr.wf() && pr.spec_modules() == modules@ && pr.spec_main_plot() == main_plot,
            p is None ==> !(names_unique(modules@) && (forall|i: int| 0 <= i < modules@.len() ==> (
            #[trigger] modules@[i]).module_wf()) && main_plot.wf() && pins_bounded(main_plot.blocks_view())),
    {
        if !main_plot.is_sound() {
            return None;
        }
        let mut i: usize = 0;
        while i < modules.len()
            invariant
                0 <= i <= modules.len(),
                forall|a: int| 0 <= a < i ==> (#[trigger] modules@[a]).module_wf(),
                forall|a: int, b: int| 0 <= a < b < i ==> (#[trigger] modules@[a]).spec_name() != (
                #[trigger] modules@[b]).spec_name(),
            decreases modules.len() - i,
        {
            if !modules[i].is_sound() {
                return None;
            }
            let mut j: usize = 0;
            while j < i
                invariant
                    0 <= j <= i < modules.len(),
                    forall|a: int| 0 <= a < j ==> (#[trigger] modules@[a]).spec_name() != modules@[i as int].spec_name(),
                decreases i - j,
            {
                if *modules[j].name() == *modules[i].name() {
                    proof {
                        assert(!names_unique(modules@)) by {
                            assert(modules@[j as int].spec_name() == modules@[i as int].spec_name());
                        }
                    }
                    return None;
                }
                j = j + 1;
            }
            i = i + 1;
        }
        Some(Project { modules, main_plot })
    }
}

} // verus!
