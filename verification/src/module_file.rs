use vstd::prelude::*;
use crate::modules::Module;
use crate::project::{Project, find_index, with_module, with_modules};

verus! {

/// A set of modules exported together: the module that was exported and
/// the modules it uses.
pub struct ModuleFile {
    pub main_name: String,
    pub modules: Vec<Module>,
}

/// The names of the modules of `file`, in order, that `ms` already has.
pub open spec fn conflicts(file: Seq<Module>, ms: Seq<Module>) -> Seq<Seq<char>>
    decreases file.len(),
{
    if file.len() == 0 {
        seq![]
    } else {
        let earlier = conflicts(file.drop_last(), ms);
        if find_index(ms, file.last().spec_name()) is Some {
            earlier.push(file.last().spec_name())
        } else {
            earlier
        }
    }
}

/// The parts joined, with `sep` between each two.
pub open spec fn joined(parts: Seq<Seq<char>>, sep: Seq<char>) -> Seq<char>
    decreases parts.len(),
{
    if parts.len() == 0 {
        seq![]
    } else if parts.len() == 1 {
        parts[0]
    } else {
        joined(parts.drop_last(), sep) + sep + parts.last()
    }
}

/// The message for an import of `main` that clashes with the modules
/// named `names`.
pub open spec fn import_error(main: Seq<char>, names: Seq<Seq<char>>) -> Seq<char> {
    "Error importing `"@ + main + "`; Conflicting modules exist:\n\t"@ + joined(names, ",\n\t"@)
}

/// Module `b` is a copy of module `a`: the same name, kind, pins and
/// decoration, and a plot with the same blocks and wires.
pub open spec fn module_copy(a: Module, b: Module) -> bool {
    &&& b.spec_name() == a.spec_name()
    &&& b.spec_category() == a.spec_category()
    &&& b.spec_builtin() == a.spec_builtin()
    &&& b.spec_num_inputs() == a.spec_num_inputs()
    &&& b.spec_num_outputs() == a.spec_num_outputs()
    &&& b.spec_decoration() == a.spec_decoration()
    &&& b.spec_custom() is Some == a.spec_custom() is Some
    &&& a.spec_custom() matches Some(c) ==> {
        let bc = b.spec_custom().unwrap();
        &&& bc.spec_input_block() == c.spec_input_block()
        &&& bc.spec_output_block() == c.spec_output_block()
        &&& bc.spec_plot().blocks_view() == c.spec_plot().blocks_view()
        &&& bc.spec_plot().connections_view() == c.spec_plot().connections_view()
    }
}

impl ModuleFile {
    /// A file for exporting module `name` of the project, holding a copy
    /// of it; `None` when the project has no such module.
    pub fn from_existing(project: &Project, name: &String) -> (f: Option<ModuleFile>)
        requires
            project.wf(),
        ensures
            f is Some == (find_index(project.spec_modules(), name@) is Some),
            f matches Some(file) ==> file.main_name@ == name@ && file.modules@.len() == 1 && module_copy(
                project.spec_modules()[find_index(project.spec_modules(), name@).unwrap()],
                file.modules@[0],
            ),
    {
        match project.module(name) {
            Some(m) => {
                let mut modules: Vec<Module> = Vec::new();
                modules.push(m.clone());
                Some(ModuleFile { main_name: name.clone(), modules })
            },
            None => None,
        }
    }

    /// The names of the modules of this file that the project already has.
    pub fn check_compat(&self, project: &Project) -> (conflicting: Vec<String>)
        requires
            project.wf(),
        ensures
            conflicting@.map_values(|s: String| s@) == conflicts(self.modules@, project.spec_modules()),
    {
        let mut out: Vec<String> = Vec::new();
        let mut i: usize = 0;
        while i < self.modules.len()
            invariant
                0 <= i <= self.modules.len(),
                project.wf(),
                out@.map_values(|s: String| s@) == conflicts(self.modules@.subrange(0, i as int), project.spec_modules()),
            decreases self.modules.len() - i,
        {
            let name = self.modules[i].name();
            let ghost before = out@;
            proof {
                assert(self.modules@.subrange(0, i + 1).drop_last() =~= self.modules@.subrange(0, i as int));
                assert(self.modules@.subrange(0, i + 1).last() == self.modules@[i as int]);
            }
            if project.module(name).is_some() {
                out.push(name.clone());
                proof {
                    assert(out@.map_values(|s: String| s@) =~= before.map_values(|s: String| s@).push(name@));
                }
            }
            i = i + 1;
        }
        proof {
            assert(self.modules@.subrange(0, self.modules@.len() as int) =~= self.modules@);
        }
        out
    }

    /// Adds the modules of this file to the project, when none of them
    /// is there yet; otherwise names the clashing ones and leaves the
    /// project as it is.
    pub fn merge(self, project: &mut Project) -> (r: Result<(), String>)
        requires
            old(project).wf(),
            forall|i: int| 0 <= i < self.modules@.len() ==> (#[trigger] self.modules@[i]).module_wf(),
        ensures
            final(project).wf(),
            final(project).spec_main_plot() == old(project).spec_main_plot(),
            conflicts(self.modules@, old(project).spec_modules()).len() == 0 ==> r is Ok
                && final(project).spec_modules() == with_modules(old(project).spec_modules(), self.modules@),
            conflicts(self.modules@, old(project).spec_modules()).len() > 0 ==> (r matches Err(e) && e@
                == import_error(self.main_name@, conflicts(self.modules@, old(project).spec_modules())))
                && *final(project) == *old(project),
    {
        let conflicting = self.check_compat(project);
        proof {
            assert(conflicting@.len() == conflicts(self.modules@, project.spec_modules()).len());
        }
        let ModuleFile { main_name, modules } = self;
        if conflicting.len() == 0 {
            let ghost all = modules@;
            let mut rest = modules;
            assert(all.len() <= usize::MAX) by {
                assert(rest@.len() == rest.len());
            }
            let mut i: usize = 0;
            while rest.len() > 0
                invariant
                    i + rest@.len() == all.len(),
                    all.len() <= usize::MAX,
                    rest@ == all.subrange(i as int, all.len() as int),
                    forall|j: int| 0 <= j < all.len() ==> (#[trigger] all[j]).module_wf(),
                    project.wf(),
                    project.spec_main_plot() == old(project).spec_main_plot(),
                    project.spec_modules() == with_modules(old(project).spec_modules(), all.subrange(0, i as int)),
                decreases rest@.len(),
            {
                let m = rest.remove(0);
                proof {
                    assert(m == all[i as int]);
                    assert(all.subrange(0, i + 1).drop_last() =~= all.subrange(0, i as int));
                    assert(all.subrange(0, i + 1).last() == all[i as int]);
                    assert(rest@ =~= all.subrange(i + 1, all.len() as int));
                }
                project.add_existing_module(m);
                i = i + 1;
            }
            proof {
                assert(all.subrange(0, all.len() as int) =~= all);
            }
            return Ok(());
        }
        let mut message = String::from_str("Error importing `");
        message.append(main_name.as_str());
        message.append("`; Conflicting modules exist:\n\t");
        let mut k: usize = 0;
        while k < conflicting.len()
            invariant
                0 <= k <= conflicting.len(),
                message@ == "Error importing `"@ + main_name@ + "`; Conflicting modules exist:\n\t"@ + joined(
                    conflicting@.map_values(|s: String| s@).subrange(0, k as int),
                    ",\n\t"@,
                ),
            decreases conflicting.len() - k,
        {
            let ghost names = conflicting@.map_values(|s: String| s@);
            if k > 0 {
                message.append(",\n\t");
            }
            message.append(conflicting[k].as_str());
            proof {
                assert(names.subrange(0, k + 1).drop_last() =~= names.subrange(0, k as int));
                assert(names.subrange(0, k + 1).last() == conflicting@[k as int]@);
                if k == 0 {
                    assert(names.subrange(0, 1).len() == 1);
                    assert(joined(names.subrange(0, 0), ",\n\t"@) == Seq::<char>::empty());
                }
            }
            k = k + 1;
        }
        proof {
            assert(conflicting@.map_values(|s: String| s@).subrange(0, conflicting@.len() as int) =~= conflicting@.map_values(
                |s: String| s@,
            ));
        }
        Err(message)
    }
}

} // verus!
